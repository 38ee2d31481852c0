//! The binary collection format: a header of two vbyte values, the number of
//! documents and the number of terms in each, followed by the vbyte groups of
//! every document's terms, back to back, with no separators.
use vstd::prelude::*;
use crate::vbyte::{
    decode_at, lemma_vbyte_round_trip, vbyte, vbyte_encode, ByteSource, FormatError, VByteDecoder,
};
use crate::zipf::ZipfGenerator;

verus! {

/// The vbyte groups of `vs`, in order.
pub open spec fn vbyte_all(vs: Seq<usize>) -> Seq<u8>
    decreases vs.len(),
{
    if vs.len() == 0 {
        Seq::empty()
    } else {
        vbyte_all(vs.drop_last()) + vbyte(vs.last() as nat)
    }
}

/// The header of a collection.
pub open spec fn header_bytes(count: usize, length: usize) -> Seq<u8> {
    vbyte(count as nat) + vbyte(length as nat)
}

/// The bytes of the documents `docs`, in order.
pub open spec fn documents_bytes(docs: Seq<Seq<usize>>) -> Seq<u8>
    decreases docs.len(),
{
    if docs.len() == 0 {
        Seq::empty()
    } else {
        documents_bytes(docs.drop_last()) + vbyte_all(docs.last())
    }
}

/// A whole collection of `count` documents of `length` terms each.
pub open spec fn collection_bytes(count: usize, length: usize, docs: Seq<Seq<usize>>) -> Seq<u8> {
    header_bytes(count, length) + documents_bytes(docs)
}

/// Where document `k` of a collection starts.
pub open spec fn document_start(count: usize, length: usize, docs: Seq<Seq<usize>>, k: int) -> int {
    (header_bytes(count, length).len() + documents_bytes(docs.take(k)).len()) as int
}

/// Reading `n` values in turn from position `p` of `s`: the values and the
/// position after the last, or the first failure.
pub open spec fn decode_values(s: Seq<u8>, p: int, n: nat) -> Result<(Seq<usize>, int), FormatError>
    decreases n,
{
    if n == 0 {
        Ok((Seq::empty(), p))
    } else {
        match decode_values(s, p, (n - 1) as nat) {
            Err(e) => Err(e),
            Ok((vs, q)) => match decode_at(s, q) {
                Err(e) => Err(e),
                Ok((v, next)) => Ok((vs.push(v), next)),
            },
        }
    }
}

/// Once a read of values fails, reading more values fails the same way.
proof fn lemma_decode_values_failed(s: Seq<u8>, p: int, i: nat, n: nat)
    requires
        i <= n,
        decode_values(s, p, i) is Err,
    ensures
        decode_values(s, p, n) == decode_values(s, p, i),
    decreases n - i,
{
    if i < n {
        lemma_decode_values_failed(s, p, i, (n - 1) as nat);
    }
}

/// The groups that `vbyte_all` writes are read back as the same values.
proof fn lemma_decode_values_all(before: Seq<u8>, vs: Seq<usize>, after: Seq<u8>)
    ensures
        decode_values(before + vbyte_all(vs) + after, before.len() as int, vs.len())
            == Ok::<(Seq<usize>, int), FormatError>((vs, (before.len() + vbyte_all(vs).len()) as int)),
    decreases vs.len(),
{
    if vs.len() > 0 {
        let init = vs.drop_last();
        let x = vs.last();
        let s = before + vbyte_all(vs) + after;
        assert(s =~= before + vbyte_all(init) + (vbyte(x as nat) + after));
        lemma_decode_values_all(before, init, vbyte(x as nat) + after);
        assert(s =~= (before + vbyte_all(init)) + vbyte(x as nat) + after);
        lemma_vbyte_round_trip(before + vbyte_all(init), x, after);
        assert(init.push(x) =~= vs);
        assert(vbyte_all(vs) == vbyte_all(init) + vbyte(x as nat));
        assert(decode_at(s, (before.len() + vbyte_all(init).len()) as int) == Ok::<
            (usize, int),
            FormatError,
        >((x, (before.len() + vbyte_all(vs).len()) as int)));
    } else {
        assert(vs =~= Seq::<usize>::empty());
    }
}

/// The bytes of two runs of documents, one after the other.
proof fn lemma_documents_bytes_concat(x: Seq<Seq<usize>>, y: Seq<Seq<usize>>)
    ensures
        documents_bytes(x + y) == documents_bytes(x) + documents_bytes(y),
    decreases y.len(),
{
    if y.len() == 0 {
        assert(x + y =~= x);
        assert(documents_bytes(x) + documents_bytes(y) =~= documents_bytes(x));
    } else {
        lemma_documents_bytes_concat(x, y.drop_last());
        assert((x + y).drop_last() =~= x + y.drop_last());
        assert(documents_bytes(x) + documents_bytes(y) =~= documents_bytes(x) + documents_bytes(
            y.drop_last(),
        ) + vbyte_all(y.last()));
    }
}

/// Round trip of the collection format: the bytes of a collection of
/// `count` documents of `length` terms each are read back as the header
/// `(count, length)`, then as each document in turn, each read ending where
/// the next document starts, and the last one at the end of the bytes.
pub proof fn lemma_collection_round_trip(count: usize, length: usize, docs: Seq<Seq<usize>>)
    requires
        docs.len() == count,
        forall|k: int| 0 <= k < count ==> (#[trigger] docs[k]).len() == length,
    ensures
        decode_values(collection_bytes(count, length, docs), 0, 2) == Ok::<
            (Seq<usize>, int),
            FormatError,
        >((seq![count, length], header_bytes(count, length).len() as int)),
        forall|k: int|
            0 <= k < count ==> decode_values(
                collection_bytes(count, length, docs),
                #[trigger] document_start(count, length, docs, k),
                length as nat,
            ) == Ok::<(Seq<usize>, int), FormatError>(
                (docs[k], document_start(count, length, docs, k + 1)),
            ),
        document_start(count, length, docs, count as int) == collection_bytes(
            count,
            length,
            docs,
        ).len(),
{
    let s = collection_bytes(count, length, docs);
    let h = header_bytes(count, length);
    let pair = seq![count, length];
    assert(pair.drop_last().drop_last() =~= Seq::<usize>::empty());
    assert(pair.drop_last() =~= seq![count]);
    assert(seq![count].drop_last() =~= Seq::<usize>::empty());
    assert(vbyte_all(seq![count]) == vbyte_all(Seq::<usize>::empty()) + vbyte(count as nat));
    assert(vbyte_all(seq![count]) =~= vbyte(count as nat));
    assert(vbyte_all(pair) =~= h);
    assert(s =~= Seq::<u8>::empty() + vbyte_all(pair) + documents_bytes(docs));
    lemma_decode_values_all(Seq::empty(), pair, documents_bytes(docs));
    assert forall|k: int| 0 <= k < count implies decode_values(
        s,
        #[trigger] document_start(count, length, docs, k),
        length as nat,
    ) == Ok::<(Seq<usize>, int), FormatError>(
        (docs[k], document_start(count, length, docs, k + 1)),
    ) by {
        let front = docs.take(k);
        let back = docs.skip(k + 1);
        assert(docs =~= front + seq![docs[k]] + back);
        assert(docs.take(k + 1) =~= front + seq![docs[k]]);
        assert(seq![docs[k]].drop_last() =~= Seq::<Seq<usize>>::empty());
        assert(documents_bytes(seq![docs[k]]) == documents_bytes(Seq::<Seq<usize>>::empty())
            + vbyte_all(docs[k]));
        assert(documents_bytes(seq![docs[k]]) =~= vbyte_all(docs[k]));
        lemma_documents_bytes_concat(front + seq![docs[k]], back);
        lemma_documents_bytes_concat(front, seq![docs[k]]);
        assert(s =~= (h + documents_bytes(front)) + vbyte_all(docs[k]) + documents_bytes(back));
        lemma_decode_values_all(h + documents_bytes(front), docs[k], documents_bytes(back));
    }
    assert(docs.take(count as int) =~= docs);
}

/// Reading `n` documents of `length` values each, in turn, from position `p`
/// of `s`: the documents and the position after the last, or the first
/// failure.
pub open spec fn decode_documents(s: Seq<u8>, p: int, n: nat, length: nat) -> Result<
    (Seq<Seq<usize>>, int),
    FormatError,
>
    decreases n,
{
    if n == 0 {
        Ok((Seq::empty(), p))
    } else {
        match decode_documents(s, p, (n - 1) as nat, length) {
            Err(e) => Err(e),
            Ok((ds, q)) => match decode_values(s, q, length) {
                Err(e) => Err(e),
                Ok((d, next)) => Ok((ds.push(d), next)),
            },
        }
    }
}

/// Reading a whole collection from `s`: the header's document count and
/// length, then that many documents.
pub open spec fn decode_collection(s: Seq<u8>) -> Result<(usize, usize, Seq<Seq<usize>>), FormatError> {
    match decode_values(s, 0, 2) {
        Err(e) => Err(e),
        Ok((h, q)) => match decode_documents(s, q, h[0] as nat, h[1] as nat) {
            Err(e) => Err(e),
            Ok((ds, _)) => Ok((h[0], h[1], ds)),
        },
    }
}

/// Once a read of documents fails, reading more documents fails the same way.
proof fn lemma_decode_documents_failed(s: Seq<u8>, p: int, i: nat, n: nat, length: nat)
    requires
        i <= n,
        decode_documents(s, p, i, length) is Err,
    ensures
        decode_documents(s, p, n, length) == decode_documents(s, p, i, length),
    decreases n - i,
{
    if i < n {
        lemma_decode_documents_failed(s, p, i, (n - 1) as nat, length);
    }
}

/// Documents that each end where the next starts are read back one after
/// the other.
proof fn lemma_decode_documents_chain(
    s: Seq<u8>,
    start: spec_fn(int) -> int,
    docs: Seq<Seq<usize>>,
    length: nat,
    n: nat,
)
    requires
        n <= docs.len(),
        forall|k: int|
            0 <= k < docs.len() ==> #[trigger] decode_values(s, start(k), length) == Ok::<
                (Seq<usize>, int),
                FormatError,
            >((docs[k], start(k + 1))),
    ensures
        decode_documents(s, start(0), n, length) == Ok::<(Seq<Seq<usize>>, int), FormatError>(
            (docs.take(n as int), start(n as int)),
        ),
    decreases n,
{
    if n == 0 {
        assert(docs.take(0) =~= Seq::<Seq<usize>>::empty());
    } else {
        lemma_decode_documents_chain(s, start, docs, length, (n - 1) as nat);
        assert(decode_values(s, start(n - 1), length) == Ok::<(Seq<usize>, int), FormatError>(
            (docs[n - 1], start(n as int)),
        ));
        assert(docs.take(n - 1).push(docs[n - 1]) =~= docs.take(n as int));
    }
}

/// A whole collection is read back as the header it was written with and
/// exactly its documents.
pub proof fn lemma_collection_decodes(count: usize, length: usize, docs: Seq<Seq<usize>>)
    requires
        docs.len() == count,
        forall|k: int| 0 <= k < count ==> (#[trigger] docs[k]).len() == length,
    ensures
        decode_collection(collection_bytes(count, length, docs)) == Ok::<
            (usize, usize, Seq<Seq<usize>>),
            FormatError,
        >((count, length, docs)),
{
    let s = collection_bytes(count, length, docs);
    let start = |k: int| document_start(count, length, docs, k);
    lemma_collection_round_trip(count, length, docs);
    assert forall|k: int| 0 <= k < docs.len() implies #[trigger] decode_values(
        s,
        start(k),
        length as nat,
    ) == Ok::<(Seq<usize>, int), FormatError>((docs[k], start(k + 1))) by {
        assert(decode_values(s, document_start(count, length, docs, k), length as nat) == Ok::<
            (Seq<usize>, int),
            FormatError,
        >((docs[k], document_start(count, length, docs, k + 1))));
    }
    lemma_decode_documents_chain(s, start, docs, length as nat, count as nat);
    assert(docs.take(0) =~= Seq::<Seq<usize>>::empty());
    assert(documents_bytes(docs.take(0)) =~= Seq::<u8>::empty());
    assert(start(0) == header_bytes(count, length).len());
    assert(docs.take(count as int) =~= docs);
}

/// The vbyte groups of the terms of `doc`, in order.
pub fn encode_document(doc: &Vec<usize>) -> (r: Vec<u8>)
    ensures
        r@ == vbyte_all(doc@),
{
    let mut out: Vec<u8> = Vec::new();
    let mut i: usize = 0;
    while i < doc.len()
        invariant
            i <= doc@.len(),
            out@ == vbyte_all(doc@.take(i as int)),
        decreases doc@.len() - i,
    {
        let mut group = vbyte_encode(doc[i]);
        out.append(&mut group);
        assert(doc@.take(i + 1).drop_last() =~= doc@.take(i as int));
        i = i + 1;
    }
    assert(doc@.take(doc@.len() as int) =~= doc@);
    out
}

/// The header of a collection of `document_count` documents of
/// `document_length` terms each.
pub fn encode_header(document_count: usize, document_length: usize) -> (r: Vec<u8>)
    ensures
        r@ == header_bytes(document_count, document_length),
{
    let mut out = vbyte_encode(document_count);
    let mut length = vbyte_encode(document_length);
    out.append(&mut length);
    out
}

/// Each of `docs` holds `length` identifiers, all below `voc`.
pub open spec fn documents_fit(docs: Seq<Seq<usize>>, length: nat, voc: nat) -> bool {
    forall|k: int|
        0 <= k < docs.len() ==> {
            &&& (#[trigger] docs[k]).len() == length
            &&& forall|t: int| 0 <= t < length ==> (#[trigger] docs[k][t]) < voc
        }
}

/// Parameters that describe no valid collection.
#[derive(Clone, Copy, Debug, PartialEq, Eq, Structural)]
pub enum ConfigurationError {
    /// The document count is zero.
    NoDocuments,
    /// The document length is zero.
    EmptyDocuments,
    /// The vocabulary is empty.
    EmptyVocabulary,
}

/// Writes a collection document by document, drawing terms from its
/// generator. The header comes from `header`, then each document's bytes
/// from `next_document`, to be appended in that order.
pub struct CollectionWriter {
    generator: ZipfGenerator,
    docs: usize,
    len: usize,
    history: Ghost<Seq<Seq<usize>>>,
    count: usize,
}

impl CollectionWriter {
    /// The generator that terms are drawn from.
    pub closed spec fn generator(&self) -> ZipfGenerator {
        self.generator
    }

    /// The number of documents of the collection.
    pub closed spec fn total_documents(&self) -> usize {
        self.docs
    }

    /// The number of terms in each document.
    pub closed spec fn terms_per_document(&self) -> usize {
        self.len
    }

    /// The documents written so far, in order.
    pub closed spec fn documents_written(&self) -> Seq<Seq<usize>> {
        self.history@
    }

    /// The generator is well formed, no more documents than the collection
    /// holds have been written, and each has the right length and only
    /// identifiers of the vocabulary.
    pub closed spec fn wf(&self) -> bool {
        &&& self.generator.wf()
        &&& self.generator.vocabulary_size() > 0
        &&& self.count == self.history@.len()
        &&& self.count <= self.docs
        &&& documents_fit(self.history@, self.len as nat, self.generator.vocabulary_size())
    }

    /// A writer for `document_count` documents of `document_length` terms
    /// drawn from `generator`; all three sizes must be positive.
    pub fn new(document_count: usize, document_length: usize, generator: ZipfGenerator) -> (r: Result<
        CollectionWriter,
        ConfigurationError,
    >)
        requires
            generator.wf(),
        ensures
            document_count == 0 <==> r == Err::<CollectionWriter, ConfigurationError>(
                ConfigurationError::NoDocuments,
            ),
            document_count > 0 && document_length == 0 <==> r == Err::<
                CollectionWriter,
                ConfigurationError,
            >(ConfigurationError::EmptyDocuments),
            document_count > 0 && document_length > 0 && generator.vocabulary_size() == 0 <==> r
                == Err::<CollectionWriter, ConfigurationError>(ConfigurationError::EmptyVocabulary),
            r matches Ok(w) ==> {
                &&& w.wf()
                &&& w.generator() == generator
                &&& w.total_documents() == document_count
                &&& w.terms_per_document() == document_length
                &&& w.documents_written() == Seq::<Seq<usize>>::empty()
            },
    {
        if document_count == 0 {
            return Err(ConfigurationError::NoDocuments);
        }
        if document_length == 0 {
            return Err(ConfigurationError::EmptyDocuments);
        }
        if generator.voc_size() == 0 {
            return Err(ConfigurationError::EmptyVocabulary);
        }
        Ok(
            CollectionWriter {
                generator,
                docs: document_count,
                len: document_length,
                history: Ghost(Seq::empty()),
                count: 0,
            },
        )
    }

    /// The header of the collection.
    pub fn header(&self) -> (r: Vec<u8>)
        ensures
            r@ == header_bytes(self.total_documents(), self.terms_per_document()),
    {
        encode_header(self.docs, self.len)
    }

    /// The number of documents written so far.
    pub fn written(&self) -> (r: usize)
        requires
            self.wf(),
        ensures
            r == self.documents_written().len(),
    {
        self.count
    }

    /// The bytes of the next document, drawn afresh, or `None` once all
    /// documents have been written.
    pub fn next_document(&mut self) -> (r: Option<Vec<u8>>)
        requires
            old(self).wf(),
        ensures
            final(self).wf(),
            final(self).total_documents() == old(self).total_documents(),
            final(self).terms_per_document() == old(self).terms_per_document(),
            final(self).generator().vocabulary_size() == old(self).generator().vocabulary_size(),
            final(self).documents_written().len() <= final(self).total_documents(),
            documents_fit(
                final(self).documents_written(),
                final(self).terms_per_document() as nat,
                final(self).generator().vocabulary_size(),
            ),
            old(self).documents_written().len() < old(self).total_documents() ==> {
                &&& final(self).documents_written().drop_last() == old(self).documents_written()
                &&& final(self).documents_written().len() == old(self).documents_written().len() + 1
                &&& r matches Some(b) && b@ == vbyte_all(final(self).documents_written().last())
            },
            old(self).documents_written().len() >= old(self).total_documents() ==> r == None::<
                Vec<u8>,
            > && final(self).documents_written() == old(self).documents_written(),
    {
        if self.count >= self.docs {
            return None;
        }
        let doc = self.generator.take(self.len);
        let bytes = encode_document(&doc);
        let ghost before = self.history@;
        self.history = Ghost(self.history@.push(doc@));
        self.count = self.count + 1;
        assert(self.history@.drop_last() =~= before);
        assert forall|k: int| 0 <= k < self.history@.len() implies {
            &&& (#[trigger] self.history@[k]).len() == self.len
            &&& forall|t: int|
                0 <= t < self.len ==> (#[trigger] self.history@[k][t])
                    < self.generator.vocabulary_size()
        } by {
            assert(documents_fit(before, self.len as nat, self.generator.vocabulary_size()));
            if k < before.len() {
                assert(self.history@[k] == before[k]);
            } else {
                assert(self.history@[k] == doc@);
            }
        }
        Some(bytes)
    }
}

/// Writing then reading: once a writer has written all its documents, its
/// header followed by their bytes is read back as the header it announced
/// and then exactly its documents, in order, each of the announced length
/// and holding only identifiers below the vocabulary size.
pub proof fn lemma_written_collection_reads_back(w: &CollectionWriter)
    requires
        w.wf(),
        w.documents_written().len() == w.total_documents(),
    ensures
        ({
            let count = w.total_documents();
            let length = w.terms_per_document();
            let docs = w.documents_written();
            let s = collection_bytes(count, length, docs);
            &&& decode_values(s, 0, 2) == Ok::<(Seq<usize>, int), FormatError>(
                (seq![count, length], header_bytes(count, length).len() as int),
            )
            &&& forall|k: int|
                0 <= k < count ==> decode_values(
                    s,
                    #[trigger] document_start(count, length, docs, k),
                    length as nat,
                ) == Ok::<(Seq<usize>, int), FormatError>(
                    (docs[k], document_start(count, length, docs, k + 1)),
                )
            &&& document_start(count, length, docs, count as int) == s.len()
            &&& documents_fit(docs, length as nat, w.generator().vocabulary_size())
            &&& decode_collection(s) == Ok::<(usize, usize, Seq<Seq<usize>>), FormatError>(
                (count, length, docs),
            )
        }),
{
    let docs = w.documents_written();
    assert forall|k: int| 0 <= k < w.total_documents() implies (#[trigger] docs[k]).len()
        == w.terms_per_document() by {
        assert(docs[k].len() == w.terms_per_document());
    }
    lemma_collection_round_trip(w.total_documents(), w.terms_per_document(), docs);
    lemma_collection_decodes(w.total_documents(), w.terms_per_document(), docs);
}

/// Reads the documents of a collection, one at a time, from a decoder
/// positioned after the header.
pub struct CollectionIterator {
    iter: VByteDecoder,
    docs: usize,
    len: usize,
    pos: usize,
}

impl CollectionIterator {
    /// The decoder the documents are read from.
    pub closed spec fn decoder(&self) -> VByteDecoder {
        self.iter
    }

    /// The number of documents the header announced.
    pub closed spec fn total_documents(&self) -> usize {
        self.docs
    }

    /// The number of terms per document the header announced.
    pub closed spec fn terms_per_document(&self) -> usize {
        self.len
    }

    /// The number of documents read so far.
    pub closed spec fn documents_read(&self) -> usize {
        self.pos
    }

    /// Read the header from `decoder` and be ready to read the documents
    /// after it.
    pub fn new(decoder: VByteDecoder) -> (r: Result<CollectionIterator, FormatError>)
        ensures
            match decode_values(decoder.source().contents(), decoder.source().position(), 2) {
                Ok((vs, next)) => r matches Ok(c) && {
                    &&& c.total_documents() == vs[0]
                    &&& c.terms_per_document() == vs[1]
                    &&& c.documents_read() == 0
                    &&& c.decoder().source().contents() == decoder.source().contents()
                    &&& c.decoder().source().position() == next
                },
                Err(e) => r == Err::<CollectionIterator, FormatError>(e),
            },
    {
        let ghost s = decoder.source().contents();
        let ghost p = decoder.source().position();
        let mut decoder = decoder;
        assert(decode_values(s, p, 0) == Ok::<(Seq<usize>, int), FormatError>((Seq::empty(), p)));
        let docs = match decoder.next() {
            Ok(v) => v,
            Err(e) => {
                return Err(e);
            },
        };
        let ghost q = decoder.source().position();
        assert(Seq::<usize>::empty().push(docs) =~= seq![docs]);
        assert(decode_values(s, p, 1) == Ok::<(Seq<usize>, int), FormatError>((seq![docs], q)));
        let len = match decoder.next() {
            Ok(v) => v,
            Err(e) => {
                return Err(e);
            },
        };
        assert(seq![docs].push(len) =~= seq![docs, len]);
        Ok(CollectionIterator { iter: decoder, docs, len, pos: 0 })
    }

    /// The number of documents the header announced.
    pub fn docs(&self) -> (r: usize)
        ensures
            r == self.total_documents(),
    {
        self.docs
    }

    /// The number of terms per document the header announced.
    pub fn len(&self) -> (r: usize)
        ensures
            r == self.terms_per_document(),
    {
        self.len
    }

    /// The next document: `Ok(None)` once all announced documents have been
    /// read, whatever bytes follow. A document cut short is an error, after
    /// which the iterator yields nothing more.
    pub fn next(&mut self) -> (r: Result<Option<Vec<usize>>, FormatError>)
        ensures
            final(self).total_documents() == old(self).total_documents(),
            final(self).terms_per_document() == old(self).terms_per_document(),
            final(self).decoder().source().contents() == old(self).decoder().source().contents(),
            old(self).documents_read() >= old(self).total_documents() ==> {
                &&& r == Ok::<Option<Vec<usize>>, FormatError>(None)
                &&& final(self).documents_read() == old(self).documents_read()
                &&& final(self).decoder() == old(self).decoder()
            },
            old(self).documents_read() < old(self).total_documents() ==> match decode_values(
                old(self).decoder().source().contents(),
                old(self).decoder().source().position(),
                old(self).terms_per_document() as nat,
            ) {
                Ok((vs, next)) => {
                    &&& r matches Ok(Some(d)) && d@ == vs
                    &&& final(self).documents_read() == old(self).documents_read() + 1
                    &&& final(self).decoder().source().position() == next
                },
                Err(e) => {
                    &&& r == Err::<Option<Vec<usize>>, FormatError>(e)
                    &&& final(self).documents_read() == final(self).total_documents()
                },
            },
    {
        if self.pos >= self.docs {
            return Ok(None);
        }
        let ghost s = self.iter.source().contents();
        let ghost p = self.iter.source().position();
        let mut terms: Vec<usize> = Vec::with_capacity(self.len);
        let mut i: usize = 0;
        while i < self.len
            invariant
                i <= self.len,
                self.docs == old(self).docs,
                self.len == old(self).len,
                self.pos == old(self).pos,
                self.pos < self.docs,
                s == old(self).iter.source().contents(),
                p == old(self).iter.source().position(),
                self.iter.source().contents() == s,
                decode_values(s, p, i as nat) == Ok::<(Seq<usize>, int), FormatError>(
                    (terms@, self.iter.source().position()),
                ),
            decreases self.len - i,
        {
            let ghost q = self.iter.source().position();
            match self.iter.next() {
                Ok(v) => {
                    terms.push(v);
                },
                Err(e) => {
                    proof {
                        lemma_decode_values_failed(s, p, (i + 1) as nat, self.len as nat);
                    }
                    self.pos = self.docs;
                    return Err(e);
                },
            }
            i = i + 1;
        }
        self.pos = self.pos + 1;
        Ok(Some(terms))
    }
}

/// Read a whole collection: its header, then each announced document in
/// turn until the reader reports the end.
pub fn read_collection(bytes: Vec<u8>) -> (r: Result<(usize, usize, Vec<Vec<usize>>), FormatError>)
    ensures
        match decode_collection(bytes@) {
            Ok((count, length, ds)) => r matches Ok((c, l, v)) && c == count && l == length
                && v@.map_values(|d: Vec<usize>| d@) == ds,
            Err(e) => r == Err::<(usize, usize, Vec<Vec<usize>>), FormatError>(e),
        },
{
    let ghost s = bytes@;
    let mut it = match CollectionIterator::new(VByteDecoder::new(ByteSource::new(bytes))) {
        Ok(it) => it,
        Err(e) => {
            return Err(e);
        },
    };
    let ghost q0 = it.decoder().source().position();
    let count = it.docs();
    let length = it.len();
    let ghost hdr: Seq<usize> = match decode_values(s, 0, 2) {
        Ok((h, _)) => h,
        Err(_) => Seq::empty(),
    };
    let mut docs: Vec<Vec<usize>> = Vec::new();
    assert(docs@.map_values(|d: Vec<usize>| d@) =~= Seq::<Seq<usize>>::empty());
    loop
        invariant
            s == bytes@,
            it.decoder().source().contents() == s,
            decode_values(s, 0, 2) == Ok::<(Seq<usize>, int), FormatError>((hdr, q0)),
            hdr[0] == count,
            hdr[1] == length,
            it.total_documents() == count,
            it.terms_per_document() == length,
            it.documents_read() <= count,
            docs@.len() == it.documents_read(),
            decode_documents(s, q0, docs@.len() as nat, length as nat) == Ok::<
                (Seq<Seq<usize>>, int),
                FormatError,
            >((docs@.map_values(|d: Vec<usize>| d@), it.decoder().source().position())),
        ensures
            docs@.len() == count,
        decreases count - it.documents_read(),
    {
        let ghost before = docs@;
        match it.next() {
            Ok(Some(d)) => {
                docs.push(d);
                assert(docs@.map_values(|d: Vec<usize>| d@) =~= before.map_values(
                    |d: Vec<usize>| d@,
                ).push(d@));
            },
            Ok(None) => {
                break;
            },
            Err(e) => {
                proof {
                    assert(decode_documents(s, q0, (before.len() + 1) as nat, length as nat)
                        == Err::<(Seq<Seq<usize>>, int), FormatError>(e));
                    lemma_decode_documents_failed(
                        s,
                        q0,
                        (before.len() + 1) as nat,
                        count as nat,
                        length as nat,
                    );
                    assert(decode_collection(s) == Err::<
                        (usize, usize, Seq<Seq<usize>>),
                        FormatError,
                    >(e));
                }
                return Err(e);
            },
        }
    }
    Ok((count, length, docs))
}

} // verus!
