//! The dictionary: words ordered by frequency rank, a three-character
//! prefix index, and per-word encoded successor lists.
//!
//! Rank 0 is a reserved sentinel and never denotes a real word; real words
//! sit at ranks `1..=word_count`, most frequent first. Words of fewer than
//! three characters belong to no prefix bucket.

use crate::codec::{decode_spec, DeltaDecoder};
use crate::error::GraphError;
use crate::strutil::{str_eq, str_starts_with};
use vstd::prelude::*;
use vstd::string::StrSliceExecFns;
use vstd::string::StringExecFns;

verus! {

/// An immutable, loaded view of all known words.
pub struct Dictionary {
    words: Vec<String>,
    prefixes: Vec<String>,
    buckets: Vec<Vec<u32>>,
    successors: Vec<Vec<u8>>,
}

impl Dictionary {
    /// The word at each rank, as character sequences; index 0 is empty.
    pub closed spec fn spec_words(&self) -> Seq<Seq<char>> {
        self.words@.map_values(|w: String| w@)
    }

    /// The number of real words.
    pub open spec fn spec_word_count(&self) -> nat {
        (self.spec_words().len() - 1) as nat
    }

    /// The word at rank `i`.
    pub open spec fn spec_word_at(&self, i: int) -> Seq<char> {
        self.spec_words()[i]
    }

    /// The known three-character prefixes, in first-seen order.
    pub closed spec fn spec_prefixes(&self) -> Seq<Seq<char>> {
        self.prefixes@.map_values(|w: String| w@)
    }

    /// The number of known prefixes.
    pub open spec fn spec_prefix_count(&self) -> nat {
        self.spec_prefixes().len()
    }

    /// The prefix with index `p`.
    pub open spec fn spec_prefix_at(&self, p: int) -> Seq<char> {
        self.spec_prefixes()[p]
    }

    /// The ranks of the words sharing each prefix, in rank order.
    pub closed spec fn spec_buckets(&self) -> Seq<Seq<u32>> {
        self.buckets@.map_values(|b: Vec<u32>| b@)
    }

    /// The ranks of the words sharing the prefix with index `p`.
    pub open spec fn spec_bucket(&self, p: int) -> Seq<u32> {
        self.spec_buckets()[p]
    }

    /// The encoded successor byte stream of the word at rank `i`.
    pub closed spec fn spec_successors(&self) -> Seq<Seq<u8>> {
        self.successors@.map_values(|b: Vec<u8>| b@)
    }

    /// The encoded successor byte stream of the word at rank `i`.
    pub open spec fn spec_successor_bytes(&self, i: int) -> Seq<u8> {
        self.spec_successors()[i]
    }

    /// Well-formedness: the invariant every loaded dictionary satisfies.
    pub open spec fn wf(&self) -> bool {
        &&& 1 <= self.spec_words().len() <= u32::MAX
        &&& self.spec_word_at(0).len() == 0
        &&& self.spec_successors().len() == self.spec_words().len()
        &&& forall|i: int|
            0 <= i < self.spec_words().len() ==> vstd::utf8::is_ascii_chars(
                #[trigger] self.spec_word_at(i),
            )
        &&& forall|i: int, j: int|
            1 <= i < j < self.spec_words().len() ==> self.spec_word_at(i) != self.spec_word_at(j)
        &&& self.spec_prefixes().len() == self.spec_buckets().len()
        &&& forall|p: int, q: int|
            0 <= p < q < self.spec_prefix_count() ==> self.spec_prefix_at(p) != self.spec_prefix_at(
                q,
            )
        &&& forall|p: int|
            0 <= p < self.spec_prefix_count() ==> (#[trigger] self.spec_prefix_at(p)).len() == 3
                && vstd::utf8::is_ascii_chars(self.spec_prefix_at(p))
        &&& forall|p: int, k: int|
            0 <= p < self.spec_prefix_count() && 0 <= k < self.spec_bucket(p).len() ==> {
                let w = #[trigger] self.spec_bucket(p)[k];
                &&& 1 <= w < self.spec_words().len()
                &&& self.spec_word_at(w as int).len() >= 3
                &&& self.spec_word_at(w as int).subrange(0, 3) == self.spec_prefix_at(p)
            }
        &&& forall|p: int, k1: int, k2: int|
            0 <= p < self.spec_prefix_count() && 0 <= k1 < k2 < self.spec_bucket(p).len()
                ==> #[trigger] self.spec_bucket(p)[k1] < #[trigger] self.spec_bucket(p)[k2]
        &&& forall|p: int| 0 <= p < self.spec_prefix_count() ==> (#[trigger] self.spec_bucket(p)).len() >= 1
        &&& forall|i: int|
            1 <= i < self.spec_words().len() && (#[trigger] self.spec_word_at(i)).len() >= 3
                ==> exists|p: int|
                0 <= p < self.spec_prefix_count() && self.spec_prefix_at(p) == self.spec_word_at(
                    i,
                ).subrange(0, 3) && self.spec_bucket(p).contains(i as u32)
        }

    /// The number of real words.
    pub fn word_count(&self) -> (n: u32)
        requires
            self.wf(),
        ensures
            n == self.spec_word_count(),
    {
        (self.words.len() - 1) as u32
    }

    /// The number of known prefixes.
    pub fn prefix_count(&self) -> (n: usize)
        requires
            self.wf(),
        ensures
            n == self.spec_prefix_count(),
    {
        self.prefixes.len()
    }

    /// The prefix with index `p`.
    pub fn prefix_at(&self, p: usize) -> (r: &String)
        requires
            self.wf(),
            p < self.spec_prefix_count(),
        ensures
            r@ == self.spec_prefix_at(p as int),
    {
        &self.prefixes[p]
    }

    /// The ranks of the words sharing the prefix with index `p`.
    pub fn bucket_at(&self, p: usize) -> (r: &Vec<u32>)
        requires
            self.wf(),
            p < self.spec_prefix_count(),
        ensures
            r@ == self.spec_bucket(p as int),
    {
        &self.buckets[p]
    }

    /// The word at rank `index`.
    pub fn word_at(&self, index: u32) -> (w: &String)
        requires
            self.wf(),
            1 <= index <= self.spec_word_count(),
        ensures
            w@ == self.spec_word_at(index as int),
    {
        &self.words[index as usize]
    }

    /// The rank of `word`, or `None` if the dictionary does not know it.
    pub fn index_of(&self, word: &str) -> (r: Option<u32>)
        requires
            self.wf(),
        ensures
            match r {
                Some(i) => 1 <= i <= self.spec_word_count() && self.spec_word_at(i as int)
                    == word@,
                None => forall|i: int|
                    1 <= i <= self.spec_word_count() ==> self.spec_word_at(i) != word@,
            },
    {
        let mut i: usize = 1;
        while i < self.words.len()
            invariant
                self.wf(),
                1 <= i <= self.spec_words().len(),
                forall|j: int| 1 <= j < i ==> self.spec_word_at(j) != word@,
            decreases self.words@.len() - i,
        {
            if str_eq(self.words[i].as_str(), word) {
                return Some(i as u32);
            }
            i = i + 1;
        }
        None
    }

    /// Rank lookup inverts word lookup: no two ranks hold the same word,
    /// so the rank found for the word at rank `i` is `i` itself.
    pub proof fn lemma_rank_of_word_is_unique(&self, i: int)
        requires
            self.wf(),
            1 <= i <= self.spec_word_count(),
        ensures
            forall|j: int|
                1 <= j <= self.spec_word_count() && self.spec_word_at(j) == self.spec_word_at(i)
                    ==> j == i,
    {
    }

    /// The words sharing the given three-character prefix, in rank order;
    /// empty when the prefix is unknown.
    pub fn words_with_prefix(&self, prefix: &str) -> (r: Vec<String>)
        requires
            self.wf(),
        ensures
            (exists|p: int| 0 <= p < self.spec_prefix_count() && self.spec_prefix_at(p) == prefix@)
                ==> {
                let p = choose|p: int|
                    0 <= p < self.spec_prefix_count() && self.spec_prefix_at(p) == prefix@;
                &&& r@.len() == self.spec_bucket(p).len()
                &&& forall|k: int|
                    0 <= k < r@.len() ==> r@[k]@ == self.spec_word_at(
                        #[trigger] self.spec_bucket(p)[k] as int,
                    )
            },
            (forall|p: int|
                0 <= p < self.spec_prefix_count() ==> self.spec_prefix_at(p) != prefix@) ==> r@.len()
                == 0,
    {
        let mut p: usize = 0;
        while p < self.prefixes.len()
            invariant
                self.wf(),
                p <= self.spec_prefix_count(),
                forall|q: int| 0 <= q < p ==> self.spec_prefix_at(q) != prefix@,
            decreases self.prefixes@.len() - p,
        {
            if str_eq(self.prefixes[p].as_str(), prefix) {
                let bucket = &self.buckets[p];
                let mut out: Vec<String> = Vec::new();
                let mut k: usize = 0;
                while k < bucket.len()
                    invariant
                        self.wf(),
                        p < self.spec_prefix_count(),
                        bucket@ == self.spec_bucket(p as int),
                        k <= bucket@.len(),
                        out@.len() == k,
                        forall|m: int|
                            0 <= m < k ==> out@[m]@ == self.spec_word_at(
                                #[trigger] self.spec_bucket(p as int)[m] as int,
                            ),
                    decreases bucket@.len() - k,
                {
                    let w = bucket[k];
                    out.push(self.words[w as usize].clone());
                    k = k + 1;
                }
                proof {
                    assert(self.spec_prefix_at(p as int) == prefix@);
                    let pc = choose|q: int|
                        0 <= q < self.spec_prefix_count() && self.spec_prefix_at(q) == prefix@;
                    if pc < p as int {
                        assert(self.spec_prefix_at(pc) != self.spec_prefix_at(p as int));
                    }
                    if (p as int) < pc {
                        assert(self.spec_prefix_at(p as int) != self.spec_prefix_at(pc));
                    }
                    assert(pc == p as int);
                }
                return out;
            }
            p = p + 1;
        }
        Vec::new()
    }

    /// Every word a prefix bucket holds carries that prefix, and every
    /// word of three or more characters sits in the bucket of its own
    /// first three characters, exactly once.
    pub proof fn lemma_prefix_buckets_exact(&self)
        requires
            self.wf(),
        ensures
            forall|p: int, k: int|
                0 <= p < self.spec_prefix_count() && 0 <= k < self.spec_bucket(p).len()
                    ==> self.spec_word_at(#[trigger] self.spec_bucket(p)[k] as int).subrange(0, 3)
                    == self.spec_prefix_at(p),
            forall|p: int, k1: int, k2: int|
                0 <= p < self.spec_prefix_count() && 0 <= k1 < self.spec_bucket(p).len() && 0 <= k2
                    < self.spec_bucket(p).len() && #[trigger] self.spec_bucket(p)[k1]
                    == #[trigger] self.spec_bucket(p)[k2] ==> k1 == k2,
            forall|i: int|
                1 <= i <= self.spec_word_count() && (#[trigger] self.spec_word_at(i)).len() >= 3
                    ==> exists|p: int|
                    0 <= p < self.spec_prefix_count() && self.spec_prefix_at(p)
                        == self.spec_word_at(i).subrange(0, 3) && self.spec_bucket(p).contains(
                        i as u32,
                    ),
    {
        assert forall|p: int, k1: int, k2: int|
            0 <= p < self.spec_prefix_count() && 0 <= k1 < self.spec_bucket(p).len() && 0 <= k2
                < self.spec_bucket(p).len() && #[trigger] self.spec_bucket(p)[k1]
                == #[trigger] self.spec_bucket(p)[k2] implies k1 == k2 by {
            if k1 < k2 {
                assert(self.spec_bucket(p)[k1] < self.spec_bucket(p)[k2]);
            }
            if k2 < k1 {
                assert(self.spec_bucket(p)[k2] < self.spec_bucket(p)[k1]);
            }
        }
    }

    /// The ranks, among the decoded successors of the word at `index`,
    /// of the words that begin with `prefix_filter`, in decoded order.
    pub fn successors_matching(&self, index: u32, prefix_filter: &str) -> (r: Vec<u32>)
        requires
            self.wf(),
            1 <= index <= self.spec_word_count(),
        ensures
            r@ == filter_indices(
                self.spec_words(),
                decode_spec(self.spec_successor_bytes(index as int)),
                prefix_filter@,
            ),
    {
        let decoder = DeltaDecoder::new(&self.successors[index as usize]);
        let decoded = decoder.decode();
        let ghost dseq = decode_spec(self.spec_successor_bytes(index as int));
        let mut out: Vec<u32> = Vec::new();
        let mut k: usize = 0;
        proof {
            assert(dseq.subrange(0, 0) =~= Seq::<u32>::empty());
        }
        while k < decoded.len()
            invariant
                self.wf(),
                decoded@ == dseq,
                k <= dseq.len(),
                out@ == filter_indices(
                    self.spec_words(),
                    dseq.subrange(0, k as int),
                    prefix_filter@,
                ),
            decreases decoded@.len() - k,
        {
            let j = decoded[k];
            let keep = if 1 <= j && (j as usize) < self.words.len() {
                str_starts_with(self.words[j as usize].as_str(), prefix_filter)
            } else {
                false
            };
            if keep {
                out.push(j);
            }
            proof {
                lemma_filter_indices_push(
                    self.spec_words(),
                    dseq.subrange(0, k as int),
                    j,
                    prefix_filter@,
                );
                assert(dseq.subrange(0, k as int).push(j) =~= dseq.subrange(0, k as int + 1));
            }
            k = k + 1;
        }
        proof {
            assert(dseq.subrange(0, dseq.len() as int) =~= dseq);
        }
        out
    }

    /// The decoded successors of the word at `index`, filtered to those
    /// that begin with `prefix_filter`, given back as words.
    pub fn successors_of(&self, index: u32, prefix_filter: &str) -> (r: Vec<String>)
        requires
            self.wf(),
            1 <= index <= self.spec_word_count(),
        ensures
            ({
                let kept = filter_indices(
                    self.spec_words(),
                    decode_spec(self.spec_successor_bytes(index as int)),
                    prefix_filter@,
                );
                &&& r@.len() == kept.len()
                &&& forall|k: int|
                    0 <= k < r@.len() ==> r@[k]@ == self.spec_word_at(#[trigger] kept[k] as int)
            }),
    {
        let ghost kept = filter_indices(
            self.spec_words(),
            decode_spec(self.spec_successor_bytes(index as int)),
            prefix_filter@,
        );
        proof {
            lemma_filter_indices_valid(
                self.spec_words(),
                decode_spec(self.spec_successor_bytes(index as int)),
                prefix_filter@,
            );
        }
        let indices = self.successors_matching(index, prefix_filter);
        let mut out: Vec<String> = Vec::new();
        let mut k: usize = 0;
        while k < indices.len()
            invariant
                self.wf(),
                indices@ == kept,
                forall|m: int| 0 <= m < kept.len() ==> 1 <= #[trigger] kept[m] < self.spec_words().len(),
                k <= kept.len(),
                out@.len() == k,
                forall|m: int|
                    0 <= m < k ==> out@[m]@ == self.spec_word_at(#[trigger] kept[m] as int),
            decreases indices@.len() - k,
        {
            let j = indices[k];
            out.push(self.words[j as usize].clone());
            k = k + 1;
        }
        out
    }
}

/// The members of `s` that name a word in `words` beginning with `pf`,
/// kept in order.
pub open spec fn filter_indices(words: Seq<Seq<char>>, s: Seq<u32>, pf: Seq<char>) -> Seq<u32>
    decreases s.len(),
{
    if s.len() == 0 {
        Seq::empty()
    } else {
        let keep = index_matches(words, s.last(), pf);
        if keep {
            filter_indices(words, s.drop_last(), pf).push(s.last())
        } else {
            filter_indices(words, s.drop_last(), pf)
        }
    }
}

/// Whether `j` names a word in `words` that begins with `pf`.
pub open spec fn index_matches(words: Seq<Seq<char>>, j: u32, pf: Seq<char>) -> bool {
    &&& 1 <= j < words.len()
    &&& words[j as int].len() >= pf.len()
    &&& words[j as int].subrange(0, pf.len() as int) == pf
}

/// Filtering one further element keeps it exactly when it matches.
proof fn lemma_filter_indices_push(words: Seq<Seq<char>>, s: Seq<u32>, j: u32, pf: Seq<char>)
    ensures
        filter_indices(words, s.push(j), pf) == if index_matches(words, j, pf) {
            filter_indices(words, s, pf).push(j)
        } else {
            filter_indices(words, s, pf)
        },
{
    assert(s.push(j).last() == j);
    assert(s.push(j).drop_last() =~= s);
}

/// Every index the filter keeps names a word.
proof fn lemma_filter_indices_valid(words: Seq<Seq<char>>, s: Seq<u32>, pf: Seq<char>)
    ensures
        forall|m: int|
            0 <= m < filter_indices(words, s, pf).len() ==> index_matches(
                words,
                #[trigger] filter_indices(words, s, pf)[m],
                pf,
            ),
    decreases s.len(),
{
    if s.len() > 0 {
        lemma_filter_indices_valid(words, s.drop_last(), pf);
        let f0 = filter_indices(words, s.drop_last(), pf);
        let f = filter_indices(words, s, pf);
        assert forall|m: int| 0 <= m < f.len() implies index_matches(words, #[trigger] f[m], pf) by {
            if index_matches(words, s.last(), pf) {
                assert(f == f0.push(s.last()));
                if m < f0.len() {
                    assert(f[m] == f0[m]);
                } else {
                    assert(f[m] == s.last());
                }
            } else {
                assert(f == f0);
                assert(f[m] == f0[m]);
            }
        }
    }
}

/// Index of the first line terminator in `b`, or `b.len()` if none.
pub open spec fn first_nl(b: Seq<u8>) -> int
    decreases b.len(),
{
    if b.len() == 0 {
        0
    } else if b[0] == 10 {
        0
    } else {
        1 + first_nl(b.drop_first())
    }
}

/// The first line terminator lies inside the stream.
pub proof fn lemma_first_nl_le(b: Seq<u8>)
    ensures
        0 <= first_nl(b) <= b.len(),
    decreases b.len(),
{
    if b.len() > 0 && b[0] != 10 {
        lemma_first_nl_le(b.drop_first());
    }
}

/// The lines of `b`: segments split at each line terminator, the
/// terminator dropped; a last segment without one still counts.
pub open spec fn split_lines(b: Seq<u8>) -> Seq<Seq<u8>>
    decreases b.len(),
    via split_lines_dec
{
    if b.len() == 0 {
        Seq::empty()
    } else {
        let k = first_nl(b);
        if k == b.len() {
            seq![b]
        } else {
            seq![b.subrange(0, k)] + split_lines(b.skip(k + 1))
        }
    }
}

#[via_fn]
proof fn split_lines_dec(b: Seq<u8>) {
    lemma_first_nl_le(b);
}

/// A scan that saw no terminator before `t` and stops there finds the
/// first terminator at `t`.
proof fn lemma_first_nl_scan(b: Seq<u8>, t: int)
    requires
        0 <= t <= b.len(),
        forall|m: int| 0 <= m < t ==> b[m] != 10,
        t == b.len() || b[t] == 10,
    ensures
        first_nl(b) == t,
    decreases t,
{
    if t > 0 {
        assert(b[0] != 10);
        assert forall|m: int| 0 <= m < t - 1 implies b.drop_first()[m] != 10 by {
            assert(b.drop_first()[m] == b[m + 1]);
        }
        assert(t - 1 == b.drop_first().len() || b.drop_first()[t - 1] == b[t]);
        lemma_first_nl_scan(b.drop_first(), t - 1);
    }
}

/// Copies a byte range of `b` into a fresh vector.
fn copy_range(b: &Vec<u8>, from: usize, to: usize) -> (r: Vec<u8>)
    requires
        from <= to <= b@.len(),
    ensures
        r@ == b@.subrange(from as int, to as int),
{
    let mut out: Vec<u8> = Vec::new();
    let mut m: usize = from;
    while m < to
        invariant
            from <= m <= to <= b@.len(),
            out@ == b@.subrange(from as int, m as int),
        decreases to - m,
    {
        out.push(b[m]);
        proof {
            assert(out@ =~= b@.subrange(from as int, m as int + 1));
        }
        m = m + 1;
    }
    proof {
        assert(out@ =~= b@.subrange(from as int, to as int));
    }
    out
}

/// Splits `bytes` into its lines.
fn split_into_lines(bytes: &Vec<u8>) -> (r: Vec<Vec<u8>>)
    ensures
        r@.map_values(|l: Vec<u8>| l@) == split_lines(bytes@),
{
    let n = bytes.len();
    let mut out: Vec<Vec<u8>> = Vec::new();
    let mut pos: usize = 0;
    proof {
        assert(bytes@.skip(0) =~= bytes@);
        assert(out@.map_values(|l: Vec<u8>| l@) =~= Seq::<Seq<u8>>::empty());
    }
    while pos < n
        invariant
            n == bytes@.len(),
            pos <= n,
            split_lines(bytes@) == out@.map_values(|l: Vec<u8>| l@) + split_lines(
                bytes@.skip(pos as int),
            ),
        decreases n - pos,
    {
        let mut j: usize = pos;
        while j < n && bytes[j] != 10
            invariant
                n == bytes@.len(),
                pos <= j <= n,
                forall|m: int| pos as int <= m < j as int ==> bytes@[m] != 10,
            decreases n - j,
        {
            j = j + 1;
        }
        proof {
            let rest = bytes@.skip(pos as int);
            assert forall|m: int| 0 <= m < j as int - pos as int implies rest[m] != 10 by {
                assert(rest[m] == bytes@[pos as int + m]);
            }
            if j < n {
                assert(rest[j as int - pos as int] == bytes@[j as int]);
            }
            lemma_first_nl_scan(rest, j as int - pos as int);
        }
        let line = copy_range(bytes, pos, j);
        let ghost p0 = pos as int;
        let ghost rest = bytes@.skip(p0);
        let ghost k = j as int - p0;
        out.push(line);
        proof {
            assert(line@ =~= rest.subrange(0, k)) by {
                assert forall|m: int| 0 <= m < k implies rest.subrange(0, k)[m] == line@[m] by {
                    assert(rest[m] == bytes@[p0 + m]);
                }
            }
        }
        if j == n {
            pos = j;
            proof {
                assert(k == rest.len());
                assert(split_lines(rest) == seq![rest]);
                assert(line@ =~= rest);
                assert(out@.map_values(|l: Vec<u8>| l@) =~= out@.drop_last().map_values(
                    |l: Vec<u8>| l@,
                ) + seq![line@]);
                assert(bytes@.skip(pos as int).len() == 0);
                assert(out@.map_values(|l: Vec<u8>| l@) + split_lines(bytes@.skip(pos as int))
                    =~= out@.map_values(|l: Vec<u8>| l@));
            }
        } else {
            pos = j + 1;
            proof {
                assert(0 <= k < rest.len());
                assert(rest[k] == bytes@[j as int]);
                assert(split_lines(rest) == seq![rest.subrange(0, k)] + split_lines(
                    rest.skip(k + 1),
                ));
                assert(rest.skip(k + 1) =~= bytes@.skip(pos as int));
                assert(out@.map_values(|l: Vec<u8>| l@) =~= out@.drop_last().map_values(
                    |l: Vec<u8>| l@,
                ) + seq![line@]);
                assert(out@.drop_last().map_values(|l: Vec<u8>| l@) + (seq![rest.subrange(0, k)]
                    + split_lines(rest.skip(k + 1))) =~= out@.map_values(|l: Vec<u8>| l@)
                    + split_lines(bytes@.skip(pos as int)));
            }
        }
    }
    proof {
        assert(bytes@.skip(pos as int).len() == 0);
        assert(out@.map_values(|l: Vec<u8>| l@) + split_lines(bytes@.skip(pos as int))
            =~= out@.map_values(|l: Vec<u8>| l@));
    }
    out
}

/// The value of a decimal digit string, most significant digit first.
pub open spec fn dec_val(s: Seq<u8>) -> nat
    decreases s.len(),
{
    if s.len() == 0 {
        0
    } else {
        dec_val(s.drop_last()) * 10 + (s.last() - 48) as nat
    }
}

/// Whether `s` is a non-empty string of decimal digits.
pub open spec fn is_dec_number(s: Seq<u8>) -> bool {
    s.len() >= 1 && forall|i: int| 0 <= i < s.len() ==> 48 <= #[trigger] s[i] <= 57
}

/// A longer digit string never has a smaller value.
proof fn lemma_dec_val_grows(s: Seq<u8>, i: int)
    requires
        0 <= i <= s.len(),
        forall|m: int| 0 <= m < s.len() ==> 48 <= #[trigger] s[m] <= 57,
    ensures
        dec_val(s.subrange(0, i)) <= dec_val(s),
    decreases s.len() - i,
{
    if i < s.len() {
        lemma_dec_val_grows(s, i + 1);
        let a = s.subrange(0, i);
        let b = s.subrange(0, i + 1);
        assert(b.drop_last() =~= a);
        assert(dec_val(b) == dec_val(a) * 10 + (b.last() - 48) as nat);
        assert(dec_val(a) * 10 >= dec_val(a) * 1);
    }
    if i == s.len() {
        assert(s.subrange(0, i) =~= s);
    }
}

/// Parses a decimal line as a 32-bit count.
fn parse_count(line: &Vec<u8>) -> (r: Option<u32>)
    ensures
        match r {
            Some(v) => is_dec_number(line@) && dec_val(line@) == v,
            None => !(is_dec_number(line@) && dec_val(line@) <= u32::MAX),
        },
{
    let n = line.len();
    if n == 0 {
        return None;
    }
    let mut acc: u64 = 0;
    let mut i: usize = 0;
    proof {
        assert(line@.subrange(0, 0) =~= Seq::<u8>::empty());
    }
    while i < n
        invariant
            n == line@.len(),
            i <= n,
            acc <= u32::MAX,
            forall|m: int| 0 <= m < i ==> 48 <= #[trigger] line@[m] <= 57,
            acc == dec_val(line@.subrange(0, i as int)),
        decreases n - i,
    {
        let b = line[i];
        if b < 48 || b > 57 {
            return None;
        }
        acc = acc * 10 + ((b - 48) as u64);
        proof {
            assert(line@.subrange(0, i as int + 1).drop_last() =~= line@.subrange(0, i as int));
            assert(line@.subrange(0, i as int + 1).last() == line@[i as int]);
        }
        if acc > 0xFFFF_FFFF {
            proof {
                if is_dec_number(line@) {
                    lemma_dec_val_grows(line@, i as int + 1);
                }
            }
            return None;
        }
        i = i + 1;
    }
    proof {
        assert(line@.subrange(0, n as int) =~= line@);
    }
    Some(acc as u32)
}

/// The character sequences of a list of strings.
pub open spec fn word_views(ws: Seq<String>) -> Seq<Seq<char>> {
    ws.map_values(|w: String| w@)
}

/// Word lists a dictionary accepts: ASCII words, no two alike.
pub open spec fn parts_ok(ws: Seq<Seq<char>>) -> bool {
    &&& forall|i: int| 0 <= i < ws.len() ==> vstd::utf8::is_ascii_chars(#[trigger] ws[i])
    &&& forall|i: int, j: int| 0 <= i < j < ws.len() ==> ws[i] != ws[j]
}

/// Finds `pf` among the known prefixes.
fn find_prefix(prefixes: &Vec<String>, pf: &str) -> (r: Option<usize>)
    ensures
        match r {
            Some(p) => p < prefixes@.len() && prefixes@[p as int]@ == pf@,
            None => forall|q: int| 0 <= q < prefixes@.len() ==> prefixes@[q]@ != pf@,
        },
{
    let mut p: usize = 0;
    while p < prefixes.len()
        invariant
            p <= prefixes@.len(),
            forall|q: int| 0 <= q < p ==> prefixes@[q]@ != pf@,
        decreases prefixes@.len() - p,
    {
        if str_eq(prefixes[p].as_str(), pf) {
            return Some(p);
        }
        p = p + 1;
    }
    None
}

impl Dictionary {
    /// Builds a dictionary from a ranked word list and the matching
    /// encoded successor lists; rank `i + 1` goes to `word_list[i]`.
    /// Rejects non-ASCII words, repeated words, and over-long lists.
    pub fn from_parts(word_list: Vec<String>, successor_lists: Vec<Vec<u8>>) -> (r: Result<
        Dictionary,
        GraphError,
    >)
        requires
            word_list@.len() == successor_lists@.len(),
        ensures
            match r {
                Ok(d) => {
                    &&& parts_ok(word_views(word_list@))
                    &&& word_list@.len() <= 0xFFFF_FFFE
                    &&& d.wf()
                    &&& d.spec_word_count() == word_list@.len()
                    &&& forall|i: int|
                        1 <= i <= word_list@.len() ==> d.spec_word_at(i) == word_list@[i - 1]@
                    &&& forall|i: int|
                        1 <= i <= word_list@.len() ==> d.spec_successor_bytes(i)
                            == successor_lists@[i - 1]@
                },
                Err(e) => {
                    &&& e is LoadError
                    &&& !(parts_ok(word_views(word_list@)) && word_list@.len() <= 0xFFFF_FFFE)
                },
            },
    {
        let ghost ws = word_views(word_list@);
        if word_list.len() > 0xFFFF_FFFE {
            return Err(GraphError::LoadError(String::from_str("word list too long")));
        }
        // every word must be ASCII
        let mut t: usize = 0;
        while t < word_list.len()
            invariant
                ws == word_views(word_list@),
                t <= word_list@.len(),
                forall|m: int| 0 <= m < t ==> vstd::utf8::is_ascii_chars(#[trigger] ws[m]),
            decreases word_list@.len() - t,
        {
            if !word_list[t].as_str().is_ascii() {
                proof {
                    assert(ws[t as int] == word_list@[t as int]@);
                }
                return Err(GraphError::LoadError(String::from_str("word is not ascii")));
            }
            proof {
                assert(ws[t as int] == word_list@[t as int]@);
            }
            t = t + 1;
        }
        // no two words may be alike
        let mut a: usize = 0;
        while a < word_list.len()
            invariant
                ws == word_views(word_list@),
                a <= word_list@.len(),
                forall|i: int, j: int| 0 <= i < j < word_list@.len() && i < a ==> ws[i] != ws[j],
            decreases word_list@.len() - a,
        {
            let mut b: usize = a + 1;
            while b < word_list.len()
                invariant
                    ws == word_list@.map_values(|w: String| w@),
                    a < b <= word_list@.len() || (a + 1 == b && b >= word_list@.len()),
                    a < word_list@.len(),
                    forall|j: int| a < j < b ==> ws[a as int] != ws[j],
                decreases word_list@.len() - b,
            {
                if word_list[a].eq(&word_list[b]) {
                    proof {
                        assert(ws[a as int] == word_list@[a as int]@);
                        assert(ws[b as int] == word_list@[b as int]@);
                    }
                    return Err(GraphError::LoadError(String::from_str("word repeated")));
                }
                proof {
                    assert(ws[a as int] == word_list@[a as int]@);
                    assert(ws[b as int] == word_list@[b as int]@);
                }
                b = b + 1;
            }
            a = a + 1;
        }
        // assemble the ranked storage, rank 0 being the sentinel
        let mut words: Vec<String> = Vec::new();
        words.push(String::new());
        let mut k: usize = 0;
        while k < word_list.len()
            invariant
                ws == word_views(word_list@),
                k <= word_list@.len(),
                words@.len() == k + 1,
                words@[0]@.len() == 0,
                forall|i: int| 1 <= i <= k ==> words@[i]@ == #[trigger] word_list@[i - 1]@,
            decreases word_list@.len() - k,
        {
            words.push(word_list[k].clone());
            k = k + 1;
        }
        let mut successors: Vec<Vec<u8>> = Vec::new();
        successors.push(Vec::new());
        let mut k2: usize = 0;
        while k2 < successor_lists.len()
            invariant
                k2 <= successor_lists@.len(),
                successors@.len() == k2 + 1,
                successors@[0]@.len() == 0,
                forall|i: int|
                    1 <= i <= k2 ==> successors@[i]@ == #[trigger] successor_lists@[i - 1]@,
            decreases successor_lists@.len() - k2,
        {
            let line = &successor_lists[k2];
            successors.push(copy_range(line, 0, line.len()));
            proof {
                assert(successor_lists@[k2 as int]@.subrange(
                    0,
                    successor_lists@[k2 as int]@.len() as int,
                ) =~= successor_lists@[k2 as int]@);
            }
            k2 = k2 + 1;
        }
        proof {
            assert forall|i: int| 0 <= i < words@.len() implies vstd::utf8::is_ascii_chars(
                #[trigger] words@[i]@,
            ) by {
                if i > 0 {
                    assert(words@[i]@ == word_list@[i - 1]@);
                    assert(ws[i - 1] == word_list@[i - 1]@);
                }
            }
            assert forall|i: int, j: int| 1 <= i < j < words@.len() implies words@[i]@
                != words@[j]@ by {
                assert(words@[i]@ == word_list@[i - 1]@);
                assert(words@[j]@ == word_list@[j - 1]@);
                assert(ws[i - 1] == word_list@[i - 1]@);
                assert(ws[j - 1] == word_list@[j - 1]@);
            }
        }
        let d = Self::index_prefixes(words, successors);
        proof {
            assert forall|i: int| 1 <= i <= word_list@.len() implies d.spec_word_at(i)
                == word_list@[i - 1]@ by {
                assert(d.spec_word_at(i) == d.spec_words()[i]);
            }
        }
        Ok(d)
    }

    /// Builds the prefix index over validated ranked storage.
    fn index_prefixes(words: Vec<String>, successors: Vec<Vec<u8>>) -> (d: Dictionary)
        requires
            1 <= words@.len() <= u32::MAX,
            words@[0]@.len() == 0,
            successors@.len() == words@.len(),
            forall|i: int|
                0 <= i < words@.len() ==> vstd::utf8::is_ascii_chars(#[trigger] words@[i]@),
            forall|i: int, j: int| 1 <= i < j < words@.len() ==> words@[i]@ != words@[j]@,
        ensures
            d.wf(),
            d.spec_words() == words@.map_values(|w: String| w@),
            d.spec_successors() == successors@.map_values(|b: Vec<u8>| b@),
    {
        let n = words.len();
        let mut prefixes: Vec<String> = Vec::new();
        let mut buckets: Vec<Vec<u32>> = Vec::new();
        let mut i: usize = 1;
        while i < n
            invariant
                n == words@.len(),
                1 <= n <= u32::MAX,
                1 <= i <= n,
                forall|t: int|
                    0 <= t < words@.len() ==> vstd::utf8::is_ascii_chars(#[trigger] words@[t]@),
                prefixes@.len() == buckets@.len(),
                forall|p: int, q: int|
                    0 <= p < q < prefixes@.len() ==> prefixes@[p]@ != prefixes@[q]@,
                forall|p: int|
                    0 <= p < prefixes@.len() ==> (#[trigger] prefixes@[p]@).len() == 3
                        && vstd::utf8::is_ascii_chars(prefixes@[p]@),
                forall|p: int, k: int|
                    0 <= p < prefixes@.len() && 0 <= k < buckets@[p]@.len() ==> {
                        let w = #[trigger] buckets@[p]@[k];
                        &&& 1 <= w < i
                        &&& words@[w as int]@.len() >= 3
                        &&& words@[w as int]@.subrange(0, 3) == prefixes@[p]@
                    },
                forall|p: int, k1: int, k2: int|
                    0 <= p < prefixes@.len() && 0 <= k1 < k2 < buckets@[p]@.len()
                        ==> #[trigger] buckets@[p]@[k1] < #[trigger] buckets@[p]@[k2],
                forall|p: int| 0 <= p < buckets@.len() ==> (#[trigger] buckets@[p]@).len() >= 1,
                forall|j: int|
                    1 <= j < i && (#[trigger] words@[j]@).len() >= 3 ==> exists|p: int|
                        0 <= p < prefixes@.len() && prefixes@[p]@ == words@[j]@.subrange(0, 3)
                            && buckets@[p]@.contains(j as u32),
            decreases n - i,
        {
            let wlen = words[i].as_str().unicode_len();
            if wlen >= 3 {
                let pfs: &str = words[i].as_str().substring_ascii(0, 3);
                match find_prefix(&prefixes, pfs) {
                    Some(p) => {
                        let ghost oldb = buckets@;
                        buckets[p].push(i as u32);
                        proof {
                            assert(buckets@ =~= oldb.update(p as int, buckets@[p as int]));
                            assert(buckets@[p as int]@ =~= oldb[p as int]@.push(i as u32));
                            assert(buckets@[p as int]@.last() == i as u32);
                            assert forall|j: int|
                                1 <= j < i + 1 && (#[trigger] words@[j]@).len() >= 3
                                implies exists|q: int|
                                    0 <= q < prefixes@.len() && prefixes@[q]@
                                        == words@[j]@.subrange(0, 3) && buckets@[q]@.contains(
                                        j as u32,
                                    ) by {
                                if j < i {
                                    let q = choose|q: int|
                                        0 <= q < prefixes@.len() && prefixes@[q]@
                                            == words@[j]@.subrange(0, 3) && oldb[q]@.contains(
                                            j as u32,
                                        );
                                    if q == p as int {
                                        let m = choose|m: int|
                                            0 <= m < oldb[q]@.len() && oldb[q]@[m] == j as u32;
                                        assert(buckets@[q]@[m] == j as u32);
                                        assert(buckets@[q]@.contains(j as u32));
                                    } else {
                                        assert(buckets@[q]@ == oldb[q]@);
                                    }
                                } else {
                                    let q = p as int;
                                    assert(buckets@[q]@[buckets@[q]@.len() - 1] == j as u32);
                                    assert(buckets@[q]@.contains(j as u32));
                                }
                            }
                        }
                    },
                    None => {
                        let ghost oldp = prefixes@;
                        let ghost oldb = buckets@;
                        let mut nb: Vec<u32> = Vec::new();
                        nb.push(i as u32);
                        prefixes.push(String::from_str(pfs));
                        buckets.push(nb);
                        proof {
                            let np = prefixes@.len() - 1;
                            assert(prefixes@[np]@ == words@[i as int]@.subrange(0, 3));
                            assert(buckets@[np]@[0] == i as u32);
                            assert(buckets@[np]@.contains(i as u32));
                            assert forall|j: int|
                                1 <= j < i + 1 && (#[trigger] words@[j]@).len() >= 3
                                implies exists|q: int|
                                    0 <= q < prefixes@.len() && prefixes@[q]@
                                        == words@[j]@.subrange(0, 3) && buckets@[q]@.contains(
                                        j as u32,
                                    ) by {
                                if j < i {
                                    let q = choose|q: int|
                                        0 <= q < oldp.len() && oldp[q]@ == words@[j]@.subrange(
                                            0,
                                            3,
                                        ) && oldb[q]@.contains(j as u32);
                                    assert(prefixes@[q] == oldp[q]);
                                    assert(buckets@[q] == oldb[q]);
                                } else {
                                    assert(prefixes@[np]@ == words@[j]@.subrange(0, 3));
                                }
                            }
                        }
                    },
                }
            }
            i = i + 1;
        }
        let d = Dictionary { words, prefixes, buckets, successors };
        proof {
            assert forall|t: int| 0 <= t < d.spec_words().len() implies vstd::utf8::is_ascii_chars(
                #[trigger] d.spec_word_at(t),
            ) by {
                assert(d.spec_word_at(t) == d.words@[t]@);
            }
            assert forall|t: int, u: int| 1 <= t < u < d.spec_words().len() implies d.spec_word_at(
                t,
            ) != d.spec_word_at(u) by {
                assert(d.spec_word_at(t) == d.words@[t]@);
                assert(d.spec_word_at(u) == d.words@[u]@);
            }
            assert forall|p: int, q: int| 0 <= p < q < d.spec_prefix_count()
                implies d.spec_prefix_at(p) != d.spec_prefix_at(q) by {
                assert(d.spec_prefix_at(p) == d.prefixes@[p]@);
                assert(d.spec_prefix_at(q) == d.prefixes@[q]@);
            }
            assert forall|p: int| 0 <= p < d.spec_prefix_count() implies (
            #[trigger] d.spec_prefix_at(p)).len() == 3 && vstd::utf8::is_ascii_chars(
                d.spec_prefix_at(p),
            ) by {
                assert(d.spec_prefix_at(p) == d.prefixes@[p]@);
            }
            assert forall|p: int, k: int|
                0 <= p < d.spec_prefix_count() && 0 <= k < d.spec_bucket(p).len() implies {
                    let w = #[trigger] d.spec_bucket(p)[k];
                    &&& 1 <= w < d.spec_words().len()
                    &&& d.spec_word_at(w as int).len() >= 3
                    &&& d.spec_word_at(w as int).subrange(0, 3) == d.spec_prefix_at(p)
                } by {
                assert(d.spec_bucket(p) == d.buckets@[p]@);
                assert(d.spec_prefix_at(p) == d.prefixes@[p]@);
                let w = d.buckets@[p]@[k];
                assert(d.spec_word_at(w as int) == d.words@[w as int]@);
            }
            assert forall|p: int, k1: int, k2: int|
                0 <= p < d.spec_prefix_count() && 0 <= k1 < k2 < d.spec_bucket(p).len()
                implies #[trigger] d.spec_bucket(p)[k1] < #[trigger] d.spec_bucket(p)[k2] by {
                assert(d.spec_bucket(p) == d.buckets@[p]@);
            }
            assert forall|p: int| 0 <= p < d.spec_prefix_count() implies (
            #[trigger] d.spec_bucket(p)).len() >= 1 by {
                assert(d.spec_bucket(p) == d.buckets@[p]@);
            }
            assert forall|j: int|
                1 <= j < d.spec_words().len() && (#[trigger] d.spec_word_at(j)).len() >= 3
                implies exists|p: int|
                    0 <= p < d.spec_prefix_count() && d.spec_prefix_at(p) == d.spec_word_at(
                        j,
                    ).subrange(0, 3) && d.spec_bucket(p).contains(j as u32) by {
                assert(d.spec_word_at(j) == d.words@[j]@);
                let q = choose|q: int|
                    0 <= q < d.prefixes@.len() && d.prefixes@[q]@ == d.words@[j]@.subrange(0, 3)
                        && d.buckets@[q]@.contains(j as u32);
                assert(d.spec_prefix_at(q) == d.prefixes@[q]@);
                assert(d.spec_bucket(q) == d.buckets@[q]@);
            }
        }
        d
    }
}

/// A line whose bytes are all ASCII.
pub open spec fn ascii_line(s: Seq<u8>) -> bool {
    forall|i: int| 0 <= i < s.len() ==> #[trigger] s[i] < 128
}

/// The characters an ASCII line decodes to.
pub open spec fn chars_of(s: Seq<u8>) -> Seq<char> {
    Seq::new(s.len(), |i: int| s[i] as char)
}

/// A dictionary asset the loader accepts: a decimal word count, that many
/// ASCII word lines with no two alike, then one successor line per word.
pub open spec fn well_formed_asset(b: Seq<u8>) -> bool {
    let ls = split_lines(b);
    &&& ls.len() >= 1
    &&& is_dec_number(ls[0])
    &&& dec_val(ls[0]) <= 0xFFFF_FFFE
    &&& ls.len() == 1 + 2 * dec_val(ls[0])
    &&& forall|i: int| 1 <= i <= dec_val(ls[0]) ==> ascii_line(#[trigger] ls[i])
    &&& forall|i: int, j: int|
        1 <= i < j <= dec_val(ls[0]) ==> chars_of(ls[i]) != chars_of(ls[j])
}

impl Dictionary {
    /// Loads a dictionary from the serialized asset: a line holding the
    /// word count `N`, then `N` word lines in frequency-descending order,
    /// then `N` encoded successor lines in the same order.
    pub fn load(bytes: &Vec<u8>) -> (r: Result<Dictionary, GraphError>)
        ensures
            match r {
                Ok(d) => well_formed_asset(bytes@) && {
                    let ls = split_lines(bytes@);
                    let n = dec_val(ls[0]);
                    &&& d.wf()
                    &&& d.spec_word_count() == n
                    &&& forall|i: int| 1 <= i <= n ==> d.spec_word_at(i) == chars_of(#[trigger] ls[i])
                    &&& forall|i: int| 1 <= i <= n ==> d.spec_successor_bytes(i) == ls[n + i]
                },
                Err(e) => e is LoadError && !well_formed_asset(bytes@),
            },
    {
        let ghost ls = split_lines(bytes@);
        let lines = split_into_lines(bytes);
        proof {
            assert(lines@.map_values(|l: Vec<u8>| l@) == ls);
            assert(lines@.len() == ls.len());
        }
        if lines.len() == 0 {
            return Err(GraphError::LoadError(String::from_str("empty asset")));
        }
        proof {
            assert(lines@[0]@ == ls[0]);
        }
        let n: u32 = match parse_count(&lines[0]) {
            Some(v) => v,
            None => {
                return Err(GraphError::LoadError(String::from_str("bad word count")));
            },
        };
        if n > 0xFFFF_FFFE {
            return Err(GraphError::LoadError(String::from_str("word count too large")));
        }
        let count_ok: bool = (lines.len() as u64) == 1 + 2 * (n as u64);
        if !count_ok {
            return Err(GraphError::LoadError(String::from_str("line count mismatch")));
        }
        proof {
            assert(lines@.len() == 1 + 2 * (n as int));
            assert(lines@.len() <= usize::MAX);
        }
        // decode the word lines
        let mut word_list: Vec<String> = Vec::new();
        let mut i: usize = 1;
        while i <= n as usize
            invariant
                ls == split_lines(bytes@),
                is_dec_number(ls[0]),
                dec_val(ls[0]) == n,
                ls == lines@.map_values(|l: Vec<u8>| l@),
                lines@.len() == 1 + 2 * (n as int),
                lines@.len() <= usize::MAX,
                1 <= i <= n as int + 1,
                word_list@.len() == i - 1,
                forall|m: int| 1 <= m < i ==> ascii_line(#[trigger] ls[m]),
                forall|m: int| 1 <= m < i ==> word_list@[m - 1]@ == chars_of(#[trigger] ls[m]),
            decreases n as int + 1 - i,
        {
            let line = &lines[i];
            proof {
                assert(lines@[i as int]@ == ls[i as int]);
            }
            let mut m: usize = 0;
            while m < line.len()
                invariant
                    ls == split_lines(bytes@),
                    is_dec_number(ls[0]),
                    dec_val(ls[0]) == n,
                    line@ == ls[i as int],
                    1 <= i as int <= n as int,
                    ls.len() == 1 + 2 * (n as int),
                    m <= line@.len(),
                    forall|t: int| 0 <= t < m ==> #[trigger] line@[t] < 128,
                decreases line@.len() - m,
            {
                if line[m] >= 128 {
                    proof {
                        assert(ls[i as int][m as int] == line@[m as int]);
                        assert(!ascii_line(ls[i as int]));
                    }
                    return Err(GraphError::LoadError(String::from_str("word is not ascii")));
                }
                m = m + 1;
            }
            let w = crate::strutil::ascii_to_string(line);
            proof {
                assert(w@ =~= chars_of(ls[i as int]));
            }
            word_list.push(w);
            i = i + 1;
        }
        // collect the successor lines
        let mut successor_lists: Vec<Vec<u8>> = Vec::new();
        let mut k: usize = 0;
        while k < n as usize
            invariant
                ls == lines@.map_values(|l: Vec<u8>| l@),
                lines@.len() == 1 + 2 * (n as int),
                lines@.len() <= usize::MAX,
                k <= n as int,
                successor_lists@.len() == k,
                forall|m: int|
                    0 <= m < k ==> successor_lists@[m]@ == #[trigger] ls[n as int + 1 + m],
            decreases n as int - k,
        {
            let line = &lines[(n as usize) + 1 + k];
            proof {
                assert(lines@[n as int + 1 + k as int]@ == ls[n as int + 1 + k as int]);
            }
            successor_lists.push(copy_range(line, 0, line.len()));
            proof {
                assert(ls[n as int + 1 + k as int].subrange(
                    0,
                    ls[n as int + 1 + k as int].len() as int,
                ) =~= ls[n as int + 1 + k as int]);
            }
            k = k + 1;
        }
        let ghost wl = word_list@;
        match Self::from_parts(word_list, successor_lists) {
            Ok(d) => {
                proof {
                    assert forall|a: int, b: int| 1 <= a < b <= n as int implies chars_of(ls[a])
                        != chars_of(ls[b]) by {
                        assert(d.spec_word_at(a) == chars_of(ls[a]));
                        assert(d.spec_word_at(b) == chars_of(ls[b]));
                    }
                    assert forall|m: int| 1 <= m <= n as int implies d.spec_successor_bytes(m)
                        == ls[n as int + m] by {
                        assert(d.spec_successor_bytes(m) == ls[n as int + 1 + (m - 1)]);
                    }
                }
                Ok(d)
            },
            Err(e) => {
                // only a repeated word can have failed the construction
                proof {
                    let wv = word_views(wl);
                    assert forall|m: int| 0 <= m < wv.len() implies vstd::utf8::is_ascii_chars(
                        #[trigger] wv[m],
                    ) by {
                        assert(wv[m] == wl[m]@);
                        assert(wl[m]@ == chars_of(ls[m + 1]));
                        assert(ascii_line(ls[m + 1]));
                        assert forall|t: int| 0 <= t < wv[m].len() implies '\0' <= #[trigger] wv[m][t]
                            <= '\u{7f}' by {
                            assert(ls[m + 1][t] < 128);
                            assert(wv[m][t] == ls[m + 1][t] as char);
                        }
                    }
                    if well_formed_asset(bytes@) {
                        assert forall|a: int, b: int| 0 <= a < b < wv.len() implies wv[a]
                            != wv[b] by {
                            assert(wv[a] == wl[a]@ && wl[a]@ == chars_of(ls[a + 1]));
                            assert(wv[b] == wl[b]@ && wl[b]@ == chars_of(ls[b + 1]));
                        }
                        assert(parts_ok(wv));
                        assert(false);
                    }
                }
                Err(GraphError::LoadError(String::from_str("word repeated")))
            },
        }
    }
}

/// Whether `s` is one of the dictionary's words.
pub open spec fn is_dict_word(d: &Dictionary, s: Seq<char>) -> bool {
    exists|w: int| 1 <= w <= d.spec_word_count() && d.spec_word_at(w) == s
}

/// Whether `s` is one of the dictionary's known prefixes.
pub open spec fn is_known_prefix(d: &Dictionary, s: Seq<char>) -> bool {
    exists|p: int| 0 <= p < d.spec_prefix_count() && d.spec_prefix_at(p) == s
}

} // verus!
