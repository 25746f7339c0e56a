//! Frame-stream encoding: frames are put in the order of their names, their
//! raw pixels are laid end to end without any separator, and the whole is
//! compressed.
use crate::codec::compress;
use crate::codec::COMPRESSION_LEVEL;
use crate::codec::gz_encoded;
use crate::codec::decode_image;
use crate::codec::gz_decoded;
use crate::codec::image_decoded;
use crate::error::Error;
use crate::source::SourceFile;
use vstd::prelude::*;
use vstd::string::StringSliceAdditionalSpecFns;
use vstd::utf8::encode_utf8;

verus! {

/// Number of frames that are decoded and held in memory at a time.
pub const BATCH_SIZE: usize = 500;

/// Whether `a` comes no later than `b` in lexical order from position `i`
/// on, given that they agree before it: `a` ends first, or at the first
/// position where they differ `a` has the smaller byte.
pub open spec fn lex_le_from(a: Seq<u8>, b: Seq<u8>, i: int) -> bool
    decreases a.len() - i,
{
    if i >= a.len() {
        true
    } else if i >= b.len() {
        false
    } else if a[i] != b[i] {
        a[i] < b[i]
    } else {
        lex_le_from(a, b, i + 1)
    }
}

/// Whether `a` comes no later than `b` in lexical order, byte by byte.
///
/// This is the order of strings, not of the numbers they may write: `10`
/// comes before `9`.
pub open spec fn lex_le(a: Seq<u8>, b: Seq<u8>) -> bool {
    lex_le_from(a, b, 0)
}

/// Lexical order is reflexive.
pub proof fn lemma_lex_le_reflexive(a: Seq<u8>, i: int)
    requires
        0 <= i,
    ensures
        lex_le_from(a, a, i),
    decreases a.len() - i,
{
    if i < a.len() {
        lemma_lex_le_reflexive(a, i + 1);
    }
}

/// Lexical order is total.
pub proof fn lemma_lex_le_total(a: Seq<u8>, b: Seq<u8>, i: int)
    requires
        0 <= i,
    ensures
        lex_le_from(a, b, i) || lex_le_from(b, a, i),
    decreases a.len() - i,
{
    if i < a.len() && i < b.len() && a[i] == b[i] {
        lemma_lex_le_total(a, b, i + 1);
    }
}

/// Lexical order is transitive.
pub proof fn lemma_lex_le_transitive(a: Seq<u8>, b: Seq<u8>, c: Seq<u8>, i: int)
    requires
        0 <= i,
        lex_le_from(a, b, i),
        lex_le_from(b, c, i),
    ensures
        lex_le_from(a, c, i),
    decreases a.len() - i,
{
    if i < a.len() && a[i] == b[i] && b[i] == c[i] {
        lemma_lex_le_transitive(a, b, c, i + 1);
    }
}

/// The names as bytes.
pub open spec fn name_bytes(names: Seq<String>) -> Seq<Seq<u8>> {
    Seq::new(names.len(), |i: int| encode_utf8(names[i]@))
}

/// Whether the name with index `p` goes before the name with index `q`:
/// it is lexically smaller, or the two are equal and `p` is the smaller
/// index.
pub open spec fn precedes(names: Seq<Seq<u8>>, p: int, q: int) -> bool {
    if names[p] == names[q] {
        p < q
    } else {
        lex_le(names[p], names[q])
    }
}

/// Whether `order` lists the indices of `names` in lexical order of the
/// names, equal names in the order of their indices. It then lists every
/// index once.
pub open spec fn is_sorted_order(names: Seq<Seq<u8>>, order: Seq<usize>) -> bool {
    &&& order.len() == names.len()
    &&& forall|i: int| 0 <= i < order.len() ==> (#[trigger] order[i]) < names.len()
    &&& forall|p: usize| p < names.len() ==> #[trigger] order.contains(p)
    &&& forall|i: int, j: int|
        0 <= i < j < order.len() ==> precedes(names, #[trigger] order[i] as int, #[trigger] order[j] as int)
}

/// Compares two names lexically.
pub fn name_le(a: &str, b: &str) -> (le: bool)
    ensures
        le == lex_le(a.spec_bytes(), b.spec_bytes()),
{
    let x = a.as_bytes();
    let y = b.as_bytes();
    let mut i: usize = 0;
    while i < x.len() && i < y.len() && x[i] == y[i]
        invariant
            i <= x@.len(),
            i <= y@.len(),
            lex_le(x@, y@) == lex_le_from(x@, y@, i as int),
        decreases x@.len() - i,
    {
        i += 1;
    }
    if i >= x.len() {
        true
    } else if i >= y.len() {
        false
    } else {
        x[i] < y[i]
    }
}

/// The order in which the frames with the given names enter the stream:
/// the indices of the names, sorted lexically by name.
pub fn sorted_order(names: &Vec<String>) -> (order: Vec<usize>)
    ensures
        is_sorted_order(name_bytes(names@), order@),
{
    let ghost texts = name_bytes(names@);
    let mut order: Vec<usize> = Vec::new();
    let mut k: usize = 0;
    while k < names.len()
        invariant
            k <= names@.len(),
            texts == name_bytes(names@),
            order@.len() == k,
            forall|i: int| 0 <= i < order@.len() ==> (#[trigger] order@[i]) < k,
            forall|p: usize| p < k ==> #[trigger] order@.contains(p),
            forall|i: int, j: int|
                0 <= i < j < order@.len() ==> precedes(
                    texts,
                    #[trigger] order@[i] as int,
                    #[trigger] order@[j] as int,
                ),
        decreases names@.len() - k,
    {
        let mut pos: usize = order.len();
        while pos > 0 && !name_le(names[order[pos - 1]].as_str(), names[k].as_str())
            invariant
                pos <= order@.len() == k < names@.len(),
                texts == name_bytes(names@),
                forall|i: int| 0 <= i < order@.len() ==> (#[trigger] order@[i]) < k,
                forall|j: int|
                    pos <= j < order@.len() ==> !lex_le(
                        texts[(#[trigger] order@[j]) as int],
                        texts[k as int],
                    ),
            decreases pos,
        {
            pos -= 1;
        }
        let ghost before = order@;
        order.insert(pos, k);
        proof {
            let now = order@;
            assert(now == before.insert(pos as int, k));
            assert forall|i: int| 0 <= i < now.len() implies (#[trigger] now[i]) < k + 1 by {
                if i < pos {
                    assert(now[i] == before[i]);
                } else if i > pos {
                    assert(now[i] == before[i - 1]);
                }
            }
            assert forall|p: usize| p < k + 1 implies #[trigger] now.contains(p) by {
                if p == k {
                    assert(now[pos as int] == k);
                } else {
                    assert(before.contains(p));
                    let i = before.index_of(p);
                    if i < pos {
                        assert(now[i] == before[i]);
                    } else {
                        assert(now[i + 1] == before[i]);
                    }
                }
            }
            assert forall|i: int, j: int| 0 <= i < j < now.len() implies precedes(
                texts,
                #[trigger] now[i] as int,
                #[trigger] now[j] as int,
            ) by {
                let bi = if i < pos {
                    i
                } else {
                    i - 1
                };
                let bj = if j < pos {
                    j
                } else {
                    j - 1
                };
                if i == pos {
                    // the new name before a later one
                    assert(now[j] == before[bj]);
                    lemma_lex_le_reflexive(texts[k as int], 0);
                    lemma_lex_le_total(texts[before[bj] as int], texts[k as int], 0);
                } else if j == pos {
                    // an earlier name before the new one
                    assert(now[i] == before[bi]);
                    assert(lex_le(texts[before[pos - 1] as int], texts[k as int]));
                    if bi < pos - 1 {
                        assert(precedes(texts, before[bi] as int, before[pos - 1] as int));
                        lemma_lex_le_reflexive(texts[before[bi] as int], 0);
                        lemma_lex_le_transitive(
                            texts[before[bi] as int],
                            texts[before[pos - 1] as int],
                            texts[k as int],
                            0,
                        );
                    }
                } else {
                    assert(now[i] == before[bi]);
                    assert(now[j] == before[bj]);
                }
            }
        }
        k += 1;
    }
    order
}

/// The bytes that a file contributes to the stream: the raw pixels of the
/// image it decodes to, row by row, or nothing where it does not decode.
pub open spec fn raw_bytes(file: SourceFile) -> Seq<u8> {
    match image_decoded(file.name@, file.contents@) {
        Some(image) => image.bytes,
        None => Seq::empty(),
    }
}

/// The bytes that the given files contribute, one after the other.
pub open spec fn raw_concat(files: Seq<SourceFile>) -> Seq<u8>
    decreases files.len(),
{
    if files.len() == 0 {
        Seq::empty()
    } else {
        raw_concat(files.drop_last()) + raw_bytes(files.last())
    }
}

/// The files in the given order of their indices.
pub open spec fn arranged(files: Seq<SourceFile>, order: Seq<usize>) -> Seq<SourceFile> {
    Seq::new(order.len(), |i: int| files[order[i] as int])
}

/// The names of the files.
pub open spec fn file_names(files: Seq<SourceFile>) -> Seq<Seq<u8>> {
    Seq::new(files.len(), |i: int| encode_utf8(files[i].name@))
}

/// Decodes a file and appends its raw pixels to the stream. A file that
/// does not decode adds nothing: the frames after it move up by one.
pub fn append_frame(stream: &mut Vec<u8>, file: &SourceFile)
    ensures
        final(stream)@ == old(stream)@ + raw_bytes(*file),
{
    match decode_image(file.name.as_str(), file.contents.as_slice()) {
        Ok(image) => {
            stream.extend_from_slice(image.data.as_slice());
        },
        Err(_) => {
            assert(stream@ =~= old(stream)@ + Seq::<u8>::empty());
        },
    }
}

/// The raw bytes of a batch of files, in the order given.
pub fn raw_batch(files: &Vec<SourceFile>) -> (stream: Vec<u8>)
    ensures
        stream@ == raw_concat(files@),
{
    let mut stream: Vec<u8> = Vec::new();
    let mut i: usize = 0;
    while i < files.len()
        invariant
            i <= files@.len(),
            stream@ == raw_concat(files@.take(i as int)),
        decreases files@.len() - i,
    {
        append_frame(&mut stream, &files[i]);
        proof {
            let longer = files@.take(i + 1);
            assert(longer.drop_last() =~= files@.take(i as int));
            assert(longer.last() == files@[i as int]);
        }
        i += 1;
    }
    assert(files@.take(i as int) =~= files@);
    stream
}

/// Number of batches that `count` frames make.
pub open spec fn batch_count(count: int) -> int {
    (count + BATCH_SIZE - 1) / BATCH_SIZE as int
}

/// Where batch `k` of `count` frames starts and ends: batches are
/// consecutive runs of `BATCH_SIZE` frames, the last one shorter where the
/// count is no multiple.
pub open spec fn batch_bounds(count: int, k: int) -> (int, int) {
    (
        k * BATCH_SIZE,
        if (k + 1) * BATCH_SIZE < count {
            (k + 1) * BATCH_SIZE
        } else {
            count
        },
    )
}

/// Cuts `count` frames into batches.
pub fn plan_batches(count: usize) -> (batches: Vec<(usize, usize)>)
    ensures
        batches@.len() == batch_count(count as int),
        forall|k: int|
            0 <= k < batches@.len() ==> (#[trigger] batches@[k]).0 == batch_bounds(count as int, k).0
                && batches@[k].1 == batch_bounds(count as int, k).1,
{
    let mut batches: Vec<(usize, usize)> = Vec::new();
    let mut start: usize = 0;
    while start < count
        invariant
            start <= count,
            start == batches@.len() * BATCH_SIZE || (start == count && batches@.len()
                == batch_count(count as int)),
            batches@.len() <= batch_count(count as int),
            forall|k: int|
                0 <= k < batches@.len() ==> (#[trigger] batches@[k]).0 == batch_bounds(
                    count as int,
                    k,
                ).0 && batches@[k].1 == batch_bounds(count as int, k).1,
        decreases count - start,
    {
        let end = if count - start <= BATCH_SIZE {
            count
        } else {
            start + BATCH_SIZE
        };
        batches.push((start, end));
        start = end;
    }
    batches
}

/// The raw stream of the files taken in the given order.
pub open spec fn raw_stream(files: Seq<SourceFile>, order: Seq<usize>) -> Seq<u8> {
    raw_concat(arranged(files, order))
}

/// Encodes frames into a compressed stream.
///
/// The files are taken in lexical order of their names, whatever order they
/// are given in. Each is decoded and contributes its raw pixels; one that
/// does not decode is left out without a trace. What comes back is the
/// stream that the compressor makes of those bytes in that order, and it
/// decompresses to exactly them. The only failure is that of the
/// compressor, `Error::Io`.
pub fn encode_stream(files: &Vec<SourceFile>) -> (r: Result<Vec<u8>, Error>)
    ensures
        exists|order: Seq<usize>|
            #![trigger raw_stream(files@, order)]
            is_sorted_order(file_names(files@), order) && match gz_encoded(
                raw_stream(files@, order),
                COMPRESSION_LEVEL,
            ) {
                Some(blob) => r matches Ok(v) && v@ == blob && gz_decoded(blob) == Some(
                    raw_stream(files@, order),
                ),
                None => r == Err::<Vec<u8>, Error>(Error::Io),
            },
{
    let mut names: Vec<String> = Vec::new();
    let mut i: usize = 0;
    while i < files.len()
        invariant
            i <= files@.len(),
            names@.len() == i,
            forall|j: int| 0 <= j < i ==> (#[trigger] names@[j])@ == files@[j].name@,
        decreases files@.len() - i,
    {
        names.push(files[i].name.clone());
        i += 1;
    }
    assert(name_bytes(names@) =~= file_names(files@));
    let order = sorted_order(&names);
    let mut stream: Vec<u8> = Vec::new();
    let mut k: usize = 0;
    while k < order.len()
        invariant
            k <= order@.len(),
            forall|i: int| 0 <= i < order@.len() ==> (#[trigger] order@[i]) < files@.len(),
            stream@ == raw_concat(arranged(files@, order@.take(k as int))),
        decreases order@.len() - k,
    {
        append_frame(&mut stream, &files[order[k]]);
        proof {
            let longer = arranged(files@, order@.take(k + 1));
            assert(longer.drop_last() =~= arranged(files@, order@.take(k as int)));
            assert(longer.last() == files@[order@[k as int] as int]);
        }
        k += 1;
    }
    assert(order@.take(k as int) =~= order@);
    assert(is_sorted_order(file_names(files@), order@));
    assert(stream@ == raw_stream(files@, order@));
    compress(stream.as_slice())
}

} // verus!
