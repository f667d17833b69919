//! Trigram extraction: a 3-symbol sliding window over the folded
//! symbol stream of a document, packed into an 18-bit identifier.
//!
//! The window starts as `(0, 0, 0)`, so the first two characters of a
//! stream produce the zero-padded trigrams `(0, 0, s0)` and
//! `(0, s0, s1)`; this padding is part of the index format.

use vstd::prelude::*;
use vstd::string::StringExecFns;
use crate::bitset::TrigramSet;
use crate::bitset::elems;
use crate::fold::explain_spec;
use crate::fold::sym_spec;
use crate::fold::explain;
use crate::fold::simplify;
use crate::text::dec_spec;
use crate::text::push_u64_dec;
use crate::text::push_char;

verus! {

/// Number of distinct trigrams: 64 * 64 * 64.
pub const TRI_MAX: usize = 262144;

/// One item of a fallible character stream: a decoded character, or
/// the message of the decode failure at that position.
pub type CharResult = Result<char, String>;

/// The symbol at position `i` of a character sequence; positions
/// before the start read as symbol 0 (the window's padding).
pub open spec fn sym_at(s: Seq<char>, i: int) -> int {
    if 0 <= i < s.len() {
        sym_spec(s[i])
    } else {
        0
    }
}

/// The trigram recorded when position `i` enters the window.
pub open spec fn tri_at(s: Seq<char>, i: int) -> int {
    4096 * sym_at(s, i - 2) + 64 * sym_at(s, i - 1) + sym_at(s, i)
}

/// The trigrams recorded after the first `k` characters.
pub open spec fn tri_set_upto(s: Seq<char>, k: int) -> Set<int> {
    Set::new(|t: int| exists|i: int| 0 <= i < k && t == tri_at(s, i))
}

/// All trigrams of a character sequence, zero-padding included.
pub open spec fn tri_set(s: Seq<char>) -> Set<int> {
    tri_set_upto(s, s.len() as int)
}

/// Every trigram value is an index into the 18-bit trigram space.
pub proof fn lemma_tri_at_range(s: Seq<char>, i: int)
    ensures
        0 <= tri_at(s, i) < 262144,
{
}

/// Every trigram of a text is an index into the 18-bit trigram
/// space.
pub proof fn lemma_tri_set_range(s: Seq<char>)
    ensures
        forall|t: int| tri_set(s).contains(t) ==> 0 <= t < 262144,
{
    assert forall|t: int| tri_set(s).contains(t) implies 0 <= t < 262144 by {
        let i = choose|i: int| 0 <= i < s.len() && t == tri_at(s, i);
        lemma_tri_at_range(s, i);
    }
}

/// Adding one character extends the trigram set by exactly the window
/// that the character completes.
pub proof fn lemma_tri_step(s: Seq<char>, k: int)
    requires
        0 <= k,
    ensures
        tri_set_upto(s, k + 1) == tri_set_upto(s, k).insert(tri_at(s, k)),
{
    let lhs = tri_set_upto(s, k + 1);
    let rhs = tri_set_upto(s, k).insert(tri_at(s, k));
    assert forall|t: int| lhs.contains(t) implies rhs.contains(t) by {
        let i = choose|i: int| 0 <= i < k + 1 && t == tri_at(s, i);
        if i < k {
            assert(tri_set_upto(s, k).contains(t));
        }
    }
    assert forall|t: int| rhs.contains(t) implies lhs.contains(t) by {
        if tri_set_upto(s, k).contains(t) {
            let i = choose|i: int| 0 <= i < k && t == tri_at(s, i);
            assert(0 <= i < k + 1 && t == tri_at(s, i));
        } else {
            assert(t == tri_at(s, k));
            assert(0 <= k < k + 1 && t == tri_at(s, k));
        }
    }
    assert(lhs =~= rhs);
}

/// Trigram windows depend only on the characters at and before their
/// position: on a prefix they are the same as on the whole, so the
/// trigram set of a prefix is contained in the trigram set of the
/// whole.  This is the determinism of trigramming over extensions.
pub proof fn lemma_tri_prefix(s: Seq<char>, d: Seq<char>)
    requires
        s.len() <= d.len(),
        d.subrange(0, s.len() as int) == s,
    ensures
        forall|i: int| 0 <= i < s.len() ==> tri_at(d, i) == tri_at(s, i),
        tri_set(s).subset_of(tri_set(d)),
{
    assert forall|i: int| 0 <= i < s.len() implies tri_at(d, i) == tri_at(s, i) by {
        assert forall|j: int| 0 <= j < s.len() implies d[j] == s[j] by {
            assert(d.subrange(0, s.len() as int)[j] == d[j]);
        }
        assert(sym_at(d, i) == sym_at(s, i));
        if i >= 1 {
            assert(sym_at(d, i - 1) == sym_at(s, i - 1));
        }
        if i >= 2 {
            assert(sym_at(d, i - 2) == sym_at(s, i - 2));
        }
    }
    assert forall|t: int| tri_set(s).contains(t) implies tri_set(d).contains(t) by {
        let i = choose|i: int| 0 <= i < s.len() && t == tri_at(s, i);
        assert(0 <= i < d.len() && t == tri_at(d, i));
    }
}

/// Unpacking `4096 a + 64 b + c` recovers `(a, b, c)` for 6-bit
/// symbols: trigram packing is a bijection on symbol triples.
pub proof fn lemma_trigram_packing(a: int, b: int, c: int)
    requires
        0 <= a < 64,
        0 <= b < 64,
        0 <= c < 64,
    ensures
        (4096 * a + 64 * b + c) / 4096 % 64 == a,
        (4096 * a + 64 * b + c) / 64 % 64 == b,
        (4096 * a + 64 * b + c) % 64 == c,
{
    let t = 4096 * a + 64 * b + c;
    vstd::arithmetic::div_mod::lemma_fundamental_div_mod_converse(t, 4096, a, 64 * b + c);
    vstd::arithmetic::div_mod::lemma_fundamental_div_mod_converse(t, 64, 64 * a + b, c);
    vstd::arithmetic::div_mod::lemma_fundamental_div_mod_converse(64 * a + b, 64, a, b);
}

/// Packs a window of three symbols into a trigram identifier.
pub fn pack(s0: u8, s1: u8, s2: u8) -> (r: u32)
    ensures
        r as int == 4096 * s0 as int + 64 * s1 as int + s2 as int,
{
    4096 * s0 as u32 + 64 * s1 as u32 + s2 as u32
}

/// The three display characters of a trigram's symbols.
pub open spec fn unpack_spec(t: int) -> Seq<char> {
    seq![
        explain_spec((t / 4096 % 64) as u8),
        explain_spec((t / 64 % 64) as u8),
        explain_spec((t % 64) as u8),
    ]
}

/// Renders a trigram as the display characters of its three symbols.
pub fn unpack(wut: usize) -> (r: String)
    ensures
        r@ == unpack_spec(wut as int),
{
    let mut r = String::new();
    push_char(&mut r, explain((wut / 4096 % 64) as u8));
    push_char(&mut r, explain((wut / 64 % 64) as u8));
    push_char(&mut r, explain((wut % 64) as u8));
    proof {
        assert(r@ =~= unpack_spec(wut as int));
    }
    r
}

/// Whether a stream item stops trigramming: a decode failure or a NUL
/// character.
pub open spec fn item_bad(it: CharResult) -> bool {
    it is Err || (it is Ok && it->Ok_0 == '\0')
}

/// The first index at or after `i` whose item stops trigramming, or
/// the length if there is none.
pub open spec fn first_bad_from(items: Seq<CharResult>, i: int) -> int
    decreases items.len() - i,
{
    if i < 0 || i >= items.len() {
        items.len() as int
    } else if item_bad(items[i]) {
        i
    } else {
        first_bad_from(items, i + 1)
    }
}

/// Whether any item of the stream stops trigramming.
pub open spec fn has_bad(items: Seq<CharResult>) -> bool {
    first_bad_from(items, 0) < items.len()
}

/// The characters of a stream, assuming the items read so far are all
/// `Ok`.
pub open spec fn oks(items: Seq<CharResult>) -> Seq<char> {
    Seq::new(items.len(), |i: int| items[i]->Ok_0)
}

/// Number of newline characters among the first `i` characters.
pub open spec fn nl_count(s: Seq<char>, i: int) -> int
    decreases i,
{
    if i <= 0 {
        0
    } else {
        nl_count(s, i - 1) + if s[i - 1] == '\n' {
            1int
        } else {
            0int
        }
    }
}

/// The 1-based line number at character position `i`.
pub open spec fn line_at(s: Seq<char>, i: int) -> int {
    1 + nl_count(s, i)
}

/// The message reported for a NUL character on line `line`.
pub open spec fn nul_msg(line: int) -> Seq<char> {
    "line "@ + dec_spec(line) + ": null found: not a text file"@
}

/// The message reported for a decode failure with message `cause` at
/// stream position `off` on line `line`.
pub open spec fn decode_msg(line: int, off: int, cause: Seq<char>) -> Seq<char> {
    "line "@ + dec_spec(line) + ": file char "@ + dec_spec(off) + ": failed: "@ + cause
}

/// The message `trigrams_for` reports for a stream with a bad item.
pub open spec fn fail_msg(items: Seq<CharResult>) -> Seq<char> {
    let i = first_bad_from(items, 0);
    let line = line_at(oks(items), i);
    if items[i] is Err {
        decode_msg(line, i, items[i]->Err_0@)
    } else {
        nul_msg(line)
    }
}

proof fn lemma_nl_count_le(s: Seq<char>, i: int)
    requires
        0 <= i,
    ensures
        0 <= nl_count(s, i) <= i,
    decreases i,
{
    if i > 0 {
        lemma_nl_count_le(s, i - 1);
    }
}

proof fn lemma_first_bad_from(items: Seq<CharResult>, i: int, k: int)
    requires
        0 <= i <= k <= items.len(),
        forall|j: int| i <= j < k ==> !item_bad(items[j]),
        k < items.len() ==> item_bad(items[k]),
    ensures
        first_bad_from(items, i) == if k < items.len() {
            k
        } else {
            items.len() as int
        },
    decreases k - i,
{
    if i < k {
        lemma_first_bad_from(items, i + 1, k);
    }
}

/// Extracts the set of trigrams of a fallible character stream.
///
/// The window starts at `(0, 0, 0)`; every accepted character shifts
/// it and records one trigram.  A decode failure or a NUL character
/// fails the whole call with a message naming the line.
pub fn trigrams_for(input: &Vec<CharResult>) -> (r: Result<TrigramSet, String>)
    requires
        input@.len() < usize::MAX,
    ensures
        r is Ok <==> !has_bad(input@),
        r is Ok ==> elems(r->Ok_0) == tri_set(oks(input@)),
        r is Err ==> r->Err_0@ == fail_msg(input@),
{
    let ghost cs = oks(input@);
    let mut line: u64 = 1;
    let mut p0: u8 = 0;
    let mut p1: u8 = 0;
    let mut p2: u8 = 0;
    let mut ret = TrigramSet::with_capacity(262144);
    let mut off: usize = 0;
    while off < input.len()
        invariant
            input@.len() < usize::MAX,
            0 <= off <= input@.len(),
            cs == oks(input@),
            forall|j: int| 0 <= j < off ==> !item_bad(input@[j]),
            line as int == line_at(cs, off as int),
            p0 as int == sym_at(cs, off as int - 3),
            p1 as int == sym_at(cs, off as int - 2),
            p2 as int == sym_at(cs, off as int - 1),
            elems(ret) == tri_set_upto(cs, off as int),
        decreases input@.len() - off,
    {
        match &input[off] {
            Result::Err(e) => {
                proof {
                    lemma_first_bad_from(input@, 0, off as int);
                }
                let mut m = String::from_str("line ");
                push_u64_dec(&mut m, line);
                m.append(": file char ");
                push_u64_dec(&mut m, off as u64);
                m.append(": failed: ");
                m.append(e.as_str());
                proof {
                    assert(m@ =~= fail_msg(input@));
                }
                return Result::Err(m);
            },
            Result::Ok(c) => {
                let ch = *c;
                if ch == '\0' {
                    proof {
                        lemma_first_bad_from(input@, 0, off as int);
                    }
                    let mut m = String::from_str("line ");
                    push_u64_dec(&mut m, line);
                    m.append(": null found: not a text file");
                    proof {
                        assert(m@ =~= fail_msg(input@));
                    }
                    return Result::Err(m);
                }
                if ch == '\n' {
                    proof {
                        lemma_nl_count_le(cs, off as int);
                    }
                    line = line + 1;
                }
                p0 = p1;
                p1 = p2;
                p2 = simplify(ch);
                let tri: usize = 4096 * (p0 as usize) + 64 * (p1 as usize) + p2 as usize;
                let _newly = ret.insert(tri);
                proof {
                    assert(cs[off as int] == ch);
                    assert(tri as int == tri_at(cs, off as int));
                    lemma_tri_step(cs, off as int);
                }
                off = off + 1;
            },
        }
    }
    proof {
        lemma_first_bad_from(input@, 0, input@.len() as int);
    }
    Result::Ok(ret)
}

/// The trigram of the full (unpadded) window ending at position `i`.
pub open spec fn tri_full_at(s: Seq<char>, i: int) -> int {
    4096 * sym_spec(s[i - 2]) + 64 * sym_spec(s[i - 1]) + sym_spec(s[i])
}

/// All full-window trigrams of a character sequence: no zero padding,
/// so sequences shorter than three characters have none.
pub open spec fn tri_full_set(s: Seq<char>) -> Set<int> {
    Set::new(|t: int| exists|i: int| 2 <= i < s.len() && t == tri_full_at(s, i))
}

/// Collects the characters of a string slice.
pub(crate) fn chars_vec(s: &str) -> (r: Vec<char>)
    ensures
        r@ == s@,
{
    broadcast use vstd::string::next_postcondition, vstd::string::axiom_spec_iter;

    let mut it = s.chars();
    let mut r: Vec<char> = Vec::new();
    loop
        invariant
            vstd::std_specs::iter::IteratorSpec::remaining(&it) =~= s@.skip(r@.len() as int),
            r@.len() <= s@.len(),
            r@ == s@.take(r@.len() as int),
        ensures
            r@ == s@,
        decreases s@.len() - r@.len(),
    {
        match it.next() {
            Option::Some(c) => {
                proof {
                    assert(s@.skip(r@.len() as int)[0] == s@[r@.len() as int]);
                    assert(s@.skip(r@.len() as int).drop_first() =~= s@.skip(r@.len() as int + 1));
                    assert(r@.push(c) =~= s@.take(r@.len() as int + 1));
                }
                r.push(c);
            },
            Option::None => {
                proof {
                    assert(s@.skip(r@.len() as int).len() == 0);
                    assert(r@ =~= s@);
                }
                break ;
            },
        }
    }
    r
}

/// Extracts the full-window trigrams of a string, in increasing order
/// of trigram identifier, without duplicates.
///
/// A string of fewer than three characters has no full window and
/// yields an empty vector.
pub fn trigrams_full(input: &str) -> (r: Vec<u32>)
    ensures
        forall|i: int, j: int| 0 <= i < j < r@.len() ==> r@[i] < r@[j],
        forall|i: int| 0 <= i < r@.len() ==> tri_full_set(input@).contains(#[trigger] r@[i] as int),
        forall|t: int|
            tri_full_set(input@).contains(t) ==> exists|i: int|
                0 <= i < r@.len() && #[trigger] r@[i] as int == t,
{
    let cs = chars_vec(input);
    let mut found = TrigramSet::with_capacity(262144);
    if cs.len() < 3 {
        proof {
            assert(forall|t: int| !tri_full_set(input@).contains(t));
        }
        return Vec::new();
    }
    let mut p0: u8 = simplify(cs[0]);
    let mut p1: u8 = simplify(cs[1]);
    let mut p2: u8 = simplify(cs[2]);
    let tri0: usize = 4096 * (p0 as usize) + 64 * (p1 as usize) + p2 as usize;
    let _n0 = found.insert(tri0);
    let mut i: usize = 3;
    proof {
        assert(tri0 as int == tri_full_at(input@, 2));
        let s0 = Set::new(|t: int| exists|j: int| 2 <= j < 3 && t == tri_full_at(input@, j));
        assert forall|t: int| s0.contains(t) implies Set::<int>::empty().insert(
            tri0 as int,
        ).contains(t) by {
            let j = choose|j: int| 2 <= j < 3 && t == tri_full_at(input@, j);
            assert(j == 2);
        }
        assert forall|t: int| Set::<int>::empty().insert(tri0 as int).contains(t) implies
            s0.contains(t) by {
            assert(2 <= 2 < 3 && tri0 as int == tri_full_at(input@, 2));
        }
        assert(elems(found) =~= s0);
    }
    while i < cs.len()
        invariant
            cs@ == input@,
            3 <= i <= cs@.len(),
            p1 as int == sym_spec(cs@[i as int - 2]),
            p2 as int == sym_spec(cs@[i as int - 1]),
            elems(found) == Set::new(
                |t: int| exists|j: int| 2 <= j < i && t == tri_full_at(input@, j),
            ),
        decreases cs@.len() - i,
    {
        p0 = p1;
        p1 = p2;
        p2 = simplify(cs[i]);
        let tri: usize = 4096 * (p0 as usize) + 64 * (p1 as usize) + p2 as usize;
        let _n = found.insert(tri);
        proof {
            assert(tri as int == tri_full_at(input@, i as int));
            let before = Set::new(|t: int| exists|j: int| 2 <= j < i && t == tri_full_at(input@, j));
            let after = Set::new(
                |t: int| exists|j: int| 2 <= j < i + 1 && t == tri_full_at(input@, j),
            );
            assert forall|t: int| after.contains(t) implies before.insert(tri as int).contains(
                t,
            ) by {
                let j = choose|j: int| 2 <= j < i + 1 && t == tri_full_at(input@, j);
                if j < i {
                    assert(before.contains(t));
                }
            }
            assert forall|t: int| before.insert(tri as int).contains(t) implies after.contains(
                t,
            ) by {
                if before.contains(t) {
                    let j = choose|j: int| 2 <= j < i && t == tri_full_at(input@, j);
                    assert(2 <= j < i + 1 && t == tri_full_at(input@, j));
                } else {
                    assert(2 <= i < i + 1 && t == tri_full_at(input@, i as int));
                }
            }
            assert(after =~= before.insert(tri as int));
        }
        i = i + 1;
    }
    proof {
        assert(elems(found) =~= tri_full_set(input@));
    }
    let raw = found.to_vec();
    let mut out: Vec<u32> = Vec::new();
    let mut k: usize = 0;
    while k < raw.len()
        invariant
            forall|a: int, b: int| 0 <= a < b < raw@.len() ==> raw@[a] < raw@[b],
            forall|a: int|
                0 <= a < raw@.len() ==> elems(found).contains(#[trigger] raw@[a] as int),
            forall|t: int|
                elems(found).contains(t) ==> exists|a: int|
                    0 <= a < raw@.len() && #[trigger] raw@[a] as int == t,
            elems(found) == tri_full_set(input@),
            0 <= k <= raw@.len(),
            out@.len() == k,
            forall|a: int| 0 <= a < k ==> out@[a] as int == raw@[a] as int,
        decreases raw@.len() - k,
    {
        let v = raw[k];
        proof {
            let t = raw@[k as int] as int;
            assert(tri_full_set(input@).contains(t));
            let j = choose|j: int| 2 <= j < input@.len() && t == tri_full_at(input@, j);
            assert(0 <= t < 262144);
        }
        out.push(v as u32);
        k = k + 1;
    }
    proof {
        assert forall|t: int| tri_full_set(input@).contains(t) implies exists|a: int|
            0 <= a < out@.len() && #[trigger] out@[a] as int == t by {
            let a = choose|a: int| 0 <= a < raw@.len() && #[trigger] raw@[a] as int == t;
            assert(out@[a] as int == t);
        }
    }
    out
}

/// Whether a character sequence contains a NUL character.
pub open spec fn has_nul(s: Seq<char>) -> bool {
    exists|i: int| 0 <= i < s.len() && s[i] == '\0'
}

/// The stream whose items are exactly the given characters, all
/// successfully decoded.
pub open spec fn oks_of(s: Seq<char>) -> Seq<CharResult> {
    Seq::new(s.len(), |i: int| Result::Ok(s[i]))
}

proof fn lemma_first_bad_is_bad(items: Seq<CharResult>, i: int)
    requires
        0 <= i <= items.len(),
        first_bad_from(items, i) < items.len(),
    ensures
        i <= first_bad_from(items, i),
        item_bad(items[first_bad_from(items, i)]),
    decreases items.len() - i,
{
    if i < items.len() && !item_bad(items[i]) {
        lemma_first_bad_is_bad(items, i + 1);
    }
}

proof fn lemma_first_bad_le(items: Seq<CharResult>, i: int, j: int)
    requires
        0 <= i <= j < items.len(),
        item_bad(items[j]),
    ensures
        first_bad_from(items, i) <= j,
    decreases j - i,
{
    if i < j && !item_bad(items[i]) {
        lemma_first_bad_le(items, i + 1, j);
    }
}

/// A stream of plain characters stops trigramming exactly when it
/// holds a NUL.
pub proof fn lemma_has_bad_oks(s: Seq<char>)
    ensures
        has_bad(oks_of(s)) <==> has_nul(s),
{
    let items = oks_of(s);
    if has_bad(items) {
        lemma_first_bad_is_bad(items, 0);
        let fb = first_bad_from(items, 0);
        assert(s[fb] == '\0');
    }
    if has_nul(s) {
        let i = choose|i: int| 0 <= i < s.len() && s[i] == '\0';
        assert(item_bad(items[i]));
        lemma_first_bad_le(items, 0, i);
    }
}

} // verus!
