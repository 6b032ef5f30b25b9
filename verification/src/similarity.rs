//! How much of two texts is the same.
use crate::change::{
    bytes_tagged, change_views, covers_both, diff_tokens, law_side_bytes, lemma_side_grows, lemma_side_step, side, token_changes, ChangeTag,
    TokenChange,
};
use crate::line::MAX_LINE_CHARS;
use crate::text::{byte_len, str_bytes};
use crate::token::{joined, law_tokens_count, law_tokens_join, tokenize_code, tokens_of};
use vstd::prelude::*;
use vstd::utf8::*;

verus! {

/// The share of two texts that they have in common, as the fraction of twice the bytes of their
/// equal tokens and the bytes of both. Two empty texts are alike: their ratio is one.
#[derive(Copy, Clone, PartialEq, Eq, Hash, Debug)]
pub struct SimilarityRatio {
    /// bytes of the tokens that are equal in both
    pub equal: usize,
    /// bytes of the old text
    pub old_len: usize,
    /// bytes of the new text
    pub new_len: usize,
}

/// The contents of a [`SimilarityRatio`].
pub struct RatioView {
    pub equal: nat,
    pub old_len: nat,
    pub new_len: nat,
}

impl View for SimilarityRatio {
    type V = RatioView;

    open spec fn view(&self) -> RatioView {
        RatioView {
            equal: self.equal as nat,
            old_len: self.old_len as nat,
            new_len: self.new_len as nat,
        }
    }
}

impl RatioView {
    /// The bytes of both texts.
    pub open spec fn total(self) -> nat {
        self.old_len + self.new_len
    }
}

/// The numerator of a ratio.
pub open spec fn numerator(r: RatioView) -> int {
    if r.total() == 0 {
        1
    } else {
        2 * (r.equal as int)
    }
}

/// The denominator of a ratio, which is not zero.
pub open spec fn denominator(r: RatioView) -> int {
    if r.total() == 0 {
        1
    } else {
        r.total() as int
    }
}

/// Whether the ratio `r` is greater than the ratio `s`.
pub open spec fn above(r: RatioView, s: RatioView) -> bool {
    numerator(r) * denominator(s) > numerator(s) * denominator(r)
}

/// Whether a ratio is one half or more.
pub open spec fn at_least_half(r: RatioView) -> bool {
    2 * numerator(r) >= denominator(r)
}

/// The similarity of two texts.
pub open spec fn similarity(old: Seq<char>, new: Seq<char>) -> RatioView {
    let changes = token_changes(tokens_of(old), tokens_of(new));
    RatioView {
        equal: byte_len(joined(side(changes, ChangeTag::Equal))),
        old_len: byte_len(old),
        new_len: byte_len(new),
    }
}

/// Comparing fractions with positive denominators is transitive.
pub proof fn lemma_order_step(a: int, b: int, c: int, d: int, e: int, f: int)
    requires
        b > 0,
        d > 0,
        f > 0,
        a * d >= c * b,
        c * f >= e * d,
    ensures
        a * f >= e * b,
        a * d > c * b || c * f > e * d ==> a * f > e * b,
{
    assert((a * d) * f >= (c * b) * f) by (nonlinear_arith)
        requires
            a * d >= c * b,
            f > 0,
    ;
    assert((c * f) * b >= (e * d) * b) by (nonlinear_arith)
        requires
            c * f >= e * d,
            b > 0,
    ;
    assert(a * d > c * b ==> (a * d) * f > (c * b) * f) by (nonlinear_arith)
        requires
            f > 0,
    ;
    assert(c * f > e * d ==> (c * f) * b > (e * d) * b) by (nonlinear_arith)
        requires
            b > 0,
    ;
    assert((c * b) * f == (c * f) * b) by (nonlinear_arith);
    assert((a * d) * f == (a * f) * d) by (nonlinear_arith);
    assert((e * d) * b == (e * b) * d) by (nonlinear_arith);
    assert((a * f) * d >= (e * b) * d ==> a * f >= e * b) by (nonlinear_arith)
        requires
            d > 0,
    ;
    assert((a * f) * d > (e * b) * d ==> a * f > e * b) by (nonlinear_arith)
        requires
            d > 0,
    ;
}

/// What both sides of a diff share is part of each.
pub proof fn law_equal_bytes(changes: Seq<(ChangeTag, Seq<char>)>, own: ChangeTag)
    ensures
        byte_len(joined(side(changes, ChangeTag::Equal))) <= byte_len(joined(side(changes, own))),
    decreases changes.len(),
{
    if changes.len() > 0 {
        let n = changes.len() - 1;
        assert(changes.take(n) =~= changes.drop_last());
        assert(changes.take(n + 1) =~= changes);
        law_equal_bytes(changes.drop_last(), own);
        lemma_side_step(changes, own, n);
        lemma_side_step(changes, ChangeTag::Equal, n);
    }
}

/// Where nothing changes, both sides share everything.
proof fn lemma_all_equal(changes: Seq<(ChangeTag, Seq<char>)>, own: ChangeTag)
    requires
        forall|i: int| 0 <= i < changes.len() ==> (#[trigger] changes[i]).0 == ChangeTag::Equal,
    ensures
        side(changes, ChangeTag::Equal) == side(changes, own),
    decreases changes.len(),
{
    if changes.len() > 0 {
        let rest = changes.drop_last();
        assert forall|i: int| 0 <= i < rest.len() implies (#[trigger] rest[i]).0
            == ChangeTag::Equal by {
            assert(rest[i] == changes[i]);
        }
        lemma_all_equal(rest, own);
        assert(changes[changes.len() - 1] == changes.last());
    }
}

/// The bytes of the tokens that are equal on both sides.
pub fn equal_length(changes: &Vec<TokenChange>) -> (r: usize)
    requires
        byte_len(joined(side(change_views(changes@), ChangeTag::Equal))) <= usize::MAX,
    ensures
        r == byte_len(joined(side(change_views(changes@), ChangeTag::Equal))),
        r == bytes_tagged(change_views(changes@), ChangeTag::Equal),
{
    let ghost views = change_views(changes@);
    let mut equal_len: usize = 0;
    let mut k: usize = 0;
    assert(views.take(0) =~= Seq::<(ChangeTag, Seq<char>)>::empty());
    while k < changes.len()
        invariant
            k <= changes@.len(),
            views == change_views(changes@),
            byte_len(joined(side(views, ChangeTag::Equal))) <= usize::MAX,
            equal_len == byte_len(joined(side(views.take(k as int), ChangeTag::Equal))),
        decreases changes@.len() - k,
    {
        let change = &changes[k];
        proof {
            lemma_side_step(views, ChangeTag::Equal, k as int);
            lemma_side_grows(views, ChangeTag::Equal, k + 1);
        }
        if change.tag == ChangeTag::Equal {
            equal_len = equal_len + str_bytes(change.token);
        }
        k = k + 1;
    }
    proof {
        assert(views.take(k as int) =~= views);
        law_side_bytes(views, ChangeTag::Equal);
    }
    equal_len
}

/// How similar two texts are: the share of their bytes that stands in equal tokens.
pub fn calculate_similarity_ratio(old: &str, new: &str) -> (r: SimilarityRatio)
    requires
        old@.len() <= MAX_LINE_CHARS,
        new@.len() <= MAX_LINE_CHARS,
    ensures
        r@ == similarity(old@, new@),
        r.old_len == encode_utf8(old@).len(),
        r.new_len == encode_utf8(new@).len(),
        ({
            let changes = token_changes(tokens_of(old@), tokens_of(new@));
            &&& r.equal == bytes_tagged(changes, ChangeTag::Equal)
            &&& r.equal == r.old_len - bytes_tagged(changes, ChangeTag::Delete)
            &&& r.equal == r.new_len - bytes_tagged(changes, ChangeTag::Insert)
        }),
        covers_both(old@, new@),
        r.equal <= r.old_len && r.equal <= r.new_len,
        old@ == new@ ==> r.equal == r.old_len,
{
    let old_tokens: Vec<&str> = tokenize_code(old);
    let new_tokens: Vec<&str> = tokenize_code(new);
    let old_len: usize = str_bytes(old);
    let new_len: usize = str_bytes(new);
    proof {
        law_tokens_count(old@);
        law_tokens_count(new@);
        law_tokens_join(old@);
        law_tokens_join(new@);
    }
    let changes: Vec<TokenChange> = diff_tokens(&old_tokens, &new_tokens);
    proof {
        let views = change_views(changes@);
        law_equal_bytes(views, ChangeTag::Delete);
        law_equal_bytes(views, ChangeTag::Insert);
        law_side_bytes(views, ChangeTag::Delete);
        law_side_bytes(views, ChangeTag::Insert);
        if old@ == new@ {
            assert forall|i: int| 0 <= i < views.len() implies (#[trigger] views[i]).0
                == ChangeTag::Equal by {
                assert(changes@[i].tag == ChangeTag::Equal);
            }
            lemma_all_equal(views, ChangeTag::Delete);
        }
    }
    let equal: usize = equal_length(&changes);
    SimilarityRatio { equal, old_len, new_len }
}

/// The similarity of two texts counts all of what they share: the bytes of the tokens that are
/// equal, which are those of either text without the bytes of its changed tokens.
pub proof fn law_similarity(old: Seq<char>, new: Seq<char>)
    requires
        side(token_changes(tokens_of(old), tokens_of(new)), ChangeTag::Delete) == tokens_of(old),
        side(token_changes(tokens_of(old), tokens_of(new)), ChangeTag::Insert) == tokens_of(new),
    ensures
        ({
            let changes = token_changes(tokens_of(old), tokens_of(new));
            let r = similarity(old, new);
            &&& r.old_len == encode_utf8(old).len()
            &&& r.new_len == encode_utf8(new).len()
            &&& r.equal == bytes_tagged(changes, ChangeTag::Equal)
            &&& r.equal + bytes_tagged(changes, ChangeTag::Delete) == r.old_len
            &&& r.equal + bytes_tagged(changes, ChangeTag::Insert) == r.new_len
        }),
{
    let changes = token_changes(tokens_of(old), tokens_of(new));
    law_tokens_join(old);
    law_tokens_join(new);
    law_side_bytes(changes, ChangeTag::Delete);
    law_side_bytes(changes, ChangeTag::Insert);
}

/// Of any two texts the similarity counts the bytes of the equal tokens and of both texts.
pub proof fn law_similarity_parts(old: Seq<char>, new: Seq<char>)
    ensures
        similarity(old, new).equal == bytes_tagged(
            token_changes(tokens_of(old), tokens_of(new)),
            ChangeTag::Equal,
        ),
        similarity(old, new).old_len == encode_utf8(old).len(),
        similarity(old, new).new_len == encode_utf8(new).len(),
{
    law_side_bytes(token_changes(tokens_of(old), tokens_of(new)), ChangeTag::Equal);
}

/// A ratio is one half or more exactly if four times the equal bytes are as many as those of both
/// texts, or more. Two empty texts are alike.
pub proof fn law_at_least_half(r: RatioView)
    ensures
        at_least_half(r) <==> 4 * r.equal >= r.old_len + r.new_len,
{
}

/// A ratio is greater than another exactly if the quotient of its equal bytes and of the bytes of
/// both texts is; where there are no bytes, the ratio is one.
pub proof fn law_above(r: RatioView, s: RatioView)
    ensures
        r.old_len + r.new_len > 0 && s.old_len + s.new_len > 0 ==> (above(r, s) <==> r.equal * (
        s.old_len + s.new_len) > s.equal * (r.old_len + r.new_len)),
        r.old_len + r.new_len == 0 && s.old_len + s.new_len > 0 ==> (above(r, s) <==> 2 * s.equal
            < s.old_len + s.new_len),
        r.old_len + r.new_len > 0 && s.old_len + s.new_len == 0 ==> (above(r, s) <==> 2 * r.equal
            > r.old_len + r.new_len),
        r.old_len + r.new_len == 0 && s.old_len + s.new_len == 0 ==> !above(r, s),
{
    lemma_above(r, s);
}

/// Ratios are compared by the products of the equal bytes of one and the bytes of the other; a
/// ratio of two empty texts is one.
proof fn lemma_above(r: RatioView, s: RatioView)
    ensures
        above(r, s) <==> if r.total() == 0 && s.total() == 0 {
            false
        } else if r.total() == 0 {
            s.total() > 2 * s.equal
        } else if s.total() == 0 {
            2 * r.equal > r.total()
        } else {
            r.equal * s.total() > s.equal * r.total()
        },
{
    let nr = numerator(r);
    let dr = denominator(r);
    let ns = numerator(s);
    let ds = denominator(s);
    assert(nr == 1 ==> nr * ds == ds) by (nonlinear_arith);
    assert(dr == 1 ==> ns * dr == ns) by (nonlinear_arith);
    assert(ns == 1 ==> ns * dr == dr) by (nonlinear_arith);
    assert(ds == 1 ==> nr * ds == nr) by (nonlinear_arith);
    if r.total() > 0 && s.total() > 0 {
        let e = r.equal as int;
        let f = s.equal as int;
        assert((2 * e) * ds == 2 * (e * ds)) by (nonlinear_arith);
        assert((2 * f) * dr == 2 * (f * dr)) by (nonlinear_arith);
    }
}

/// The product of a count and a sum, as twice a number plus zero or one, so that it can be as
/// large as it may.
fn product(count: usize, sum: u128) -> (r: (u128, u128))
    requires
        sum <= 2 * usize::MAX,
    ensures
        2 * r.0 + r.1 == count * sum,
        r.1 < 2,
{
    let c: u128 = count as u128;
    let half: u128 = sum / 2;
    let odd: u128 = sum % 2;
    let ghost limit: int = usize::MAX as int;
    assert(limit < 0x1_0000_0000_0000_0000);
    assert(c * half <= limit * limit) by (nonlinear_arith)
        requires
            c <= limit,
            half <= limit,
            0 <= c,
            0 <= half,
    ;
    assert(limit * limit <= 0xffff_ffff_ffff_ffff * 0xffff_ffff_ffff_ffff) by (nonlinear_arith)
        requires
            0 <= limit <= 0xffff_ffff_ffff_ffff,
    ;
    assert(c * sum == 2 * (c * half) + c * odd) by (nonlinear_arith)
        requires
            sum == 2 * half + odd,
    ;
    let extra: u128 = if odd == 1 {
        c
    } else {
        0
    };
    assert(c * odd == extra) by (nonlinear_arith)
        requires
            odd == 0 || odd == 1,
            extra == if odd == 1 {
                c as int
            } else {
                0
            },
    ;
    (c * half + extra / 2, extra % 2)
}

impl SimilarityRatio {
    /// The bytes of both texts.
    fn total(&self) -> (r: u128)
        ensures
            r == self@.total(),
            r <= 2 * usize::MAX,
    {
        self.old_len as u128 + self.new_len as u128
    }

    /// Whether the ratio is one half or more.
    pub fn is_at_least_half(&self) -> (r: bool)
        ensures
            r == at_least_half(self@),
            r <==> 4 * self.equal >= self.old_len + self.new_len,
    {
        4 * (self.equal as u128) >= self.total()
    }

    /// Whether the ratio is greater than `other`.
    #[verifier::spinoff_prover]
    pub fn is_above(&self, other: &SimilarityRatio) -> (r: bool)
        ensures
            r == above(self@, other@),
            self.old_len + self.new_len > 0 && other.old_len + other.new_len > 0 ==> (r
                <==> self.equal * (other.old_len + other.new_len) > other.equal * (self.old_len
                + self.new_len)),
    {
        proof {
            lemma_above(self@, other@);
        }
        let a: u128 = self.total();
        let b: u128 = other.total();
        if a == 0 && b == 0 {
            false
        } else if a == 0 {
            b > 2 * (other.equal as u128)
        } else if b == 0 {
            2 * (self.equal as u128) > a
        } else {
            let x = product(self.equal, b);
            let y = product(other.equal, a);
            x.0 > y.0 || (x.0 == y.0 && x.1 > y.1)
        }
    }
}

} // verus!
