//! The differences between two lists of tokens.
use crate::text::{byte_len, lemma_encode_concat};
use crate::token::{joined, law_joined, texts, tokens_of};
use similar::TextDiff;
use vstd::prelude::*;
use vstd::utf8::*;

verus! {

/// What became of a token.
#[derive(Copy, Clone, PartialEq, Eq, Hash, Debug, Structural)]
pub enum ChangeTag {
    /// the token stands on both sides
    Equal,
    /// the token stands on the old side only
    Delete,
    /// the token stands on the new side only
    Insert,
}

/// A token of a diff, and what became of it.
#[derive(Copy, Clone, PartialEq, Eq, Hash, Debug)]
pub struct TokenChange<'a> {
    /// what became of the token
    pub tag: ChangeTag,
    /// the text of the token
    pub token: &'a str,
}

impl<'a> View for TokenChange<'a> {
    type V = (ChangeTag, Seq<char>);

    open spec fn view(&self) -> (ChangeTag, Seq<char>) {
        (self.tag, self.token@)
    }
}

/// The contents of a list of changes.
pub open spec fn change_views(changes: Seq<TokenChange>) -> Seq<(ChangeTag, Seq<char>)> {
    Seq::new(changes.len(), |i: int| changes[i]@)
}

/// Whether a token with the tag `tag` stands on the side on which tokens with the tag `own` do.
pub open spec fn on_side(tag: ChangeTag, own: ChangeTag) -> bool {
    tag == ChangeTag::Equal || tag == own
}

/// The tokens that stand on one side of a diff, in order: the old side for `Delete`, the new side
/// for `Insert`, what both sides share for `Equal`.
pub open spec fn side(changes: Seq<(ChangeTag, Seq<char>)>, own: ChangeTag) -> Seq<Seq<char>>
    decreases changes.len(),
{
    if changes.len() == 0 {
        Seq::empty()
    } else {
        let before = side(changes.drop_last(), own);
        if on_side(changes.last().0, own) {
            before.push(changes.last().1)
        } else {
            before
        }
    }
}

/// The tokens that are tagged as equal or as `own`, in order.
pub open spec fn tokens_tagged(changes: Seq<(ChangeTag, Seq<char>)>, own: ChangeTag) -> Seq<
    Seq<char>,
> {
    changes.filter(
        |c: (ChangeTag, Seq<char>)| c.0 == ChangeTag::Equal || c.0 == own,
    ).map_values(|c: (ChangeTag, Seq<char>)| c.1)
}

/// A side has the tokens that are tagged as equal or as its own, all of them and in order.
pub proof fn law_side(changes: Seq<(ChangeTag, Seq<char>)>, own: ChangeTag)
    ensures
        side(changes, own) == tokens_tagged(changes, own),
    decreases changes.len(),
{
    reveal(Seq::filter);
    if changes.len() > 0 {
        let rest = changes.drop_last();
        law_side(rest, own);
        if changes.last().0 == ChangeTag::Equal || changes.last().0 == own {
            assert(tokens_tagged(changes, own) =~= tokens_tagged(rest, own).push(changes.last().1));
        } else {
            assert(tokens_tagged(changes, own) =~= tokens_tagged(rest, own));
        }
    } else {
        assert(tokens_tagged(changes, own) =~= Seq::empty());
    }
}

/// The tokens that are tagged as `tag`, in order.
pub open spec fn only_tagged(changes: Seq<(ChangeTag, Seq<char>)>, tag: ChangeTag) -> Seq<
    Seq<char>,
> {
    changes.filter(|c: (ChangeTag, Seq<char>)| c.0 == tag).map_values(
        |c: (ChangeTag, Seq<char>)| c.1,
    )
}

/// The bytes of the tokens that are tagged as `tag`.
pub open spec fn bytes_tagged(changes: Seq<(ChangeTag, Seq<char>)>, tag: ChangeTag) -> nat {
    encode_utf8(only_tagged(changes, tag).flatten()).len()
}

/// One more change is the bytes of its token more.
proof fn lemma_bytes_tagged(changes: Seq<(ChangeTag, Seq<char>)>, tag: ChangeTag)
    ensures
        changes.len() == 0 ==> bytes_tagged(changes, tag) == 0,
        changes.len() > 0 ==> bytes_tagged(changes, tag) == bytes_tagged(changes.drop_last(), tag)
            + if changes.last().0 == tag {
            byte_len(changes.last().1)
        } else {
            0
        },
{
    reveal(Seq::filter);
    let all = only_tagged(changes, tag);
    if changes.len() == 0 {
        assert(all =~= Seq::empty());
        law_joined(all);
        assert(joined(all) =~= Seq::empty());
    } else {
        let rest = only_tagged(changes.drop_last(), tag);
        law_joined(all);
        law_joined(rest);
        if changes.last().0 == tag {
            assert(all =~= rest.push(changes.last().1));
            assert(all.drop_last() =~= rest);
            lemma_encode_concat(joined(rest), changes.last().1);
        } else {
            assert(all =~= rest);
        }
    }
}

/// The bytes of a side are those of the tokens that are tagged as equal and of those that are
/// tagged as its own.
pub proof fn law_side_bytes(changes: Seq<(ChangeTag, Seq<char>)>, own: ChangeTag)
    ensures
        byte_len(joined(side(changes, ChangeTag::Equal))) == bytes_tagged(
            changes,
            ChangeTag::Equal,
        ),
        own != ChangeTag::Equal ==> byte_len(joined(side(changes, own))) == bytes_tagged(
            changes,
            ChangeTag::Equal,
        ) + bytes_tagged(changes, own),
    decreases changes.len(),
{
    lemma_bytes_tagged(changes, ChangeTag::Equal);
    lemma_bytes_tagged(changes, own);
    if changes.len() > 0 {
        let n = changes.len() - 1;
        assert(changes.take(n) =~= changes.drop_last());
        assert(changes.take(n + 1) =~= changes);
        law_side_bytes(changes.drop_last(), own);
        lemma_side_step(changes, own, n);
        lemma_side_step(changes, ChangeTag::Equal, n);
    } else {
        assert(joined(side(changes, own)) =~= Seq::empty());
        assert(joined(side(changes, ChangeTag::Equal)) =~= Seq::empty());
    }
}

/// The number of tokens that are tagged as `own`.
pub open spec fn count_tagged(changes: Seq<(ChangeTag, Seq<char>)>, own: ChangeTag) -> nat {
    changes.filter(|c: (ChangeTag, Seq<char>)| c.0 == own).len()
}

/// One more change is one more token of its tag.
pub proof fn lemma_count_tagged(changes: Seq<(ChangeTag, Seq<char>)>, own: ChangeTag)
    ensures
        changes.len() == 0 ==> count_tagged(changes, own) == 0,
        changes.len() > 0 ==> count_tagged(changes, own) == count_tagged(changes.drop_last(), own)
            + if changes.last().0 == own {
            1nat
        } else {
            0
        },
{
    reveal(Seq::filter);
}

/// The bytes of one side grow with each change by the bytes of a token of that side.
pub proof fn lemma_side_step(changes: Seq<(ChangeTag, Seq<char>)>, own: ChangeTag, k: int)
    requires
        0 <= k < changes.len(),
    ensures
        changes.take(k + 1).drop_last() == changes.take(k),
        joined(side(changes.take(k + 1), own)) == if on_side(changes[k].0, own) {
            joined(side(changes.take(k), own)) + changes[k].1
        } else {
            joined(side(changes.take(k), own))
        },
        byte_len(joined(side(changes.take(k + 1), own))) == byte_len(
            joined(side(changes.take(k), own)),
        ) + if on_side(changes[k].0, own) {
            byte_len(changes[k].1)
        } else {
            0
        },
{
    assert(changes.take(k + 1).drop_last() =~= changes.take(k));
    assert(changes.take(k + 1).last() == changes[k]);
    let before = side(changes.take(k), own);
    if on_side(changes[k].0, own) {
        assert(before.push(changes[k].1).drop_last() =~= before);
        lemma_encode_concat(joined(before), changes[k].1);
    }
}

/// The text of one side of a diff starts with that of the side of its first changes.
pub proof fn lemma_side_grows(changes: Seq<(ChangeTag, Seq<char>)>, own: ChangeTag, k: int)
    requires
        0 <= k <= changes.len(),
    ensures
        byte_len(joined(side(changes.take(k), own))) <= byte_len(joined(side(changes, own))),
    decreases changes.len() - k,
{
    if k < changes.len() {
        lemma_side_step(changes, own, k);
        lemma_side_grows(changes, own, k + 1);
    } else {
        assert(changes.take(k) =~= changes);
    }
}

/// The changes that `TextDiff::from_slices` finds between two lists of tokens, as
/// `iter_all_changes` lists them.
pub uninterp spec fn token_changes(old: Seq<Seq<char>>, new: Seq<Seq<char>>) -> Seq<
    (ChangeTag, Seq<char>),
>;

/// Whether the changes between two texts are made of the texts: the equal and the deleted tokens
/// are those of the old text, the equal and the inserted tokens those of the new one.
pub open spec fn covers_both(old: Seq<char>, new: Seq<char>) -> bool {
    let changes = token_changes(tokens_of(old), tokens_of(new));
    &&& side(changes, ChangeTag::Delete) == tokens_of(old)
    &&& side(changes, ChangeTag::Insert) == tokens_of(new)
}

/// Calls `similar::TextDiff::from_slices` and collects what `iter_all_changes` yields. Which
/// tokens are matched is the algorithm's affair and is only given a name. Whatever it matches,
/// the equal and the deleted tokens are the old list and the equal and the inserted tokens are the
/// new one, both in order, and between equal lists nothing changes. Tokens are numbered with
/// 32 bits on the way, hence the bound.
#[verifier::external_body]
pub(crate) fn diff_tokens<'a>(old: &Vec<&'a str>, new: &Vec<&'a str>) -> (changes: Vec<
    TokenChange<'a>,
>)
    requires
        old@.len() + new@.len() <= 0x8000_0000,
    ensures
        change_views(changes@) == token_changes(texts(old@), texts(new@)),
        side(change_views(changes@), ChangeTag::Delete) == texts(old@),
        side(change_views(changes@), ChangeTag::Insert) == texts(new@),
        texts(old@) == texts(new@) ==> forall|i: int|
            0 <= i < changes@.len() ==> (#[trigger] changes@[i]).tag == ChangeTag::Equal,
{
    let diff = TextDiff::from_slices(old, new);
    let change = |c: similar::Change<&'a str>| TokenChange {
        tag: match c.tag() {
            similar::ChangeTag::Equal => ChangeTag::Equal,
            similar::ChangeTag::Delete => ChangeTag::Delete,
            similar::ChangeTag::Insert => ChangeTag::Insert,
        },
        token: c.value(),
    };
    diff.iter_all_changes().map(change).collect()
}

/// The views of changes are their tags and their tokens, in order.
pub proof fn law_change_views(changes: Seq<TokenChange>)
    ensures
        change_views(changes).len() == changes.len(),
        forall|i: int|
            0 <= i < changes.len() ==> (#[trigger] change_views(changes)[i]).0 == changes[i].tag
                && change_views(changes)[i].1 == changes[i].token@,
{
}

} // verus!
