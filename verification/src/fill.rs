//! Filling templates: which names the templates use, which of them the data
//! leaves out, and the text that comes of a template and the data.
use crate::names::{Bindings, Names};
use crate::template::token::{Token, TokenView};
use crate::template::token_views;
use vstd::prelude::*;
use vstd::string::*;

verus! {

/// `names` with the placeholder names of `tokens` added, each name once, in
/// the order in which it first comes.
pub open spec fn with_names(names: Seq<Seq<char>>, tokens: Seq<TokenView>) -> Seq<Seq<char>>
    decreases tokens.len(),
{
    if tokens.len() == 0 {
        names
    } else {
        let before = with_names(names, tokens.drop_last());
        match tokens.last() {
            TokenView::Var(name) => if before.contains(name) {
                before
            } else {
                before.push(name)
            },
            TokenView::Lit(_) => before,
        }
    }
}

/// True when one of `tokens` is a placeholder with the name `name`.
pub open spec fn mentions(tokens: Seq<TokenView>, name: Seq<char>) -> bool {
    exists|i: int| 0 <= i < tokens.len() && tokens[i] == TokenView::Var(name)
}

/// [`with_names`] holds the names that were there and the names that the
/// tokens mention, and no others; it adds no name twice.
pub proof fn lemma_with_names(names: Seq<Seq<char>>, tokens: Seq<TokenView>)
    ensures
        forall|k: Seq<char>|
            with_names(names, tokens).contains(k) <==> names.contains(k) || mentions(tokens, k),
        names.no_duplicates() ==> with_names(names, tokens).no_duplicates(),
    decreases tokens.len(),
{
    if tokens.len() > 0 {
        let front = tokens.drop_last();
        let before = with_names(names, front);
        let after = with_names(names, tokens);
        lemma_with_names(names, front);
        assert forall|k: Seq<char>| after.contains(k) <==> names.contains(k) || mentions(
            tokens,
            k,
        ) by {
            if mentions(front, k) {
                let i = choose|i: int| 0 <= i < front.len() && front[i] == TokenView::Var(k);
                assert(tokens[i] == TokenView::Var(k));
            }
            if mentions(tokens, k) {
                let i = choose|i: int| 0 <= i < tokens.len() && tokens[i] == TokenView::Var(k);
                if i < front.len() {
                    assert(front[i] == TokenView::Var(k));
                }
            }
            if tokens.last() == TokenView::Var(k) {
                assert(tokens[tokens.len() - 1] == TokenView::Var(k));
            }
            if before.contains(k) {
                let i = choose|i: int| 0 <= i < before.len() && before[i] == k;
                assert(after[i] == k);
            }
            if after.len() > before.len() {
                assert(after[before.len() as int] == after.last());
            }
        }
        if names.no_duplicates() && after.len() > before.len() {
            assert forall|i: int, j: int|
                0 <= i < after.len() && 0 <= j < after.len() && i != j implies after[i]
                != after[j] by {
                if i < before.len() && j < before.len() {
                    assert(before[i] != before[j]);
                } else if i < before.len() {
                    assert(before.contains(before[i]));
                } else {
                    assert(before.contains(before[j]));
                }
            }
        }
    }
}

/// Adds the placeholder names of `tokens` to `names`.
pub fn collect_names(tokens: &Vec<Token<'_>>, names: &mut Names)
    requires
        old(names).wf(),
    ensures
        final(names).wf(),
        final(names)@ == with_names(old(names)@, token_views(tokens@)),
        forall|k: Seq<char>|
            final(names)@.contains(k) <==> old(names)@.contains(k) || mentions(
                token_views(tokens@),
                k,
            ),
{
    let ghost views = token_views(tokens@);
    let mut i: usize = 0;
    assert(views.take(0) =~= Seq::<TokenView>::empty());
    while i < tokens.len()
        invariant
            i <= tokens.len(),
            views == token_views(tokens@),
            names.wf(),
            names@ == with_names(old(names)@, views.take(i as int)),
        decreases tokens.len() - i,
    {
        proof {
            assert(views.take(i + 1).drop_last() =~= views.take(i as int));
            assert(views.take(i + 1).last() == tokens@[i as int]@);
        }
        match tokens[i].as_var() {
            Some(name) => {
                names.insert(name);
            },
            None => {},
        }
        i += 1;
    }
    proof {
        assert(views.take(i as int) =~= views);
        lemma_with_names(old(names)@, views);
    }
}

/// The names of `a` that are not among `b`, in the order of `a`.
pub open spec fn without(a: Seq<Seq<char>>, b: Seq<Seq<char>>) -> Seq<Seq<char>>
    decreases a.len(),
{
    if a.len() == 0 {
        Seq::empty()
    } else if b.contains(a.last()) {
        without(a.drop_last(), b)
    } else {
        without(a.drop_last(), b).push(a.last())
    }
}

/// [`without`] holds the names of `a` that `b` lacks, and no others.
pub proof fn lemma_without(a: Seq<Seq<char>>, b: Seq<Seq<char>>)
    ensures
        forall|k: Seq<char>| without(a, b).contains(k) <==> a.contains(k) && !b.contains(k),
    decreases a.len(),
{
    if a.len() > 0 {
        let front = a.drop_last();
        let before = without(front, b);
        let after = without(a, b);
        lemma_without(front, b);
        assert forall|k: Seq<char>| after.contains(k) <==> a.contains(k) && !b.contains(k) by {
            if front.contains(k) {
                let i = choose|i: int| 0 <= i < front.len() && front[i] == k;
                assert(a[i] == k);
            }
            if a.contains(k) {
                let i = choose|i: int| 0 <= i < a.len() && a[i] == k;
                if i < front.len() {
                    assert(front[i] == k);
                }
            }
            if before.contains(k) {
                let i = choose|i: int| 0 <= i < before.len() && before[i] == k;
                assert(after[i] == k);
            }
            if after.len() > before.len() {
                assert(after[before.len() as int] == a.last());
            }
            assert(a[a.len() - 1] == a.last());
        }
    }
}

/// What a list of strings holds.
pub open spec fn texts(list: Seq<String>) -> Seq<Seq<char>> {
    Seq::new(list.len(), |i: int| list[i]@)
}

/// The names of `a` that are not in `b`, in the order of `a`: with the names
/// that the templates use and the names that the data binds, the names that
/// are missing from the data; the other way round, the names that no template
/// uses.
pub fn difference(a: &Names, b: &Names) -> (r: Vec<String>)
    requires
        a.wf(),
        b.wf(),
    ensures
        texts(r@) == without(a@, b@),
        forall|k: Seq<char>| texts(r@).contains(k) <==> a@.contains(k) && !b@.contains(k),
{
    let mut r: Vec<String> = Vec::new();
    let mut i: usize = 0;
    assert(a@.take(0) =~= Seq::<Seq<char>>::empty());
    assert(texts(r@) =~= Seq::<Seq<char>>::empty());
    while i < a.len()
        invariant
            i <= a@.len(),
            b.wf(),
            texts(r@) == without(a@.take(i as int), b@),
        decreases a@.len() - i,
    {
        proof {
            assert(a@.take(i + 1).drop_last() =~= a@.take(i as int));
            assert(a@.take(i + 1).last() == a@[i as int]);
        }
        let name = a.get(i);
        if !b.contains(name) {
            let ghost before = r@;
            r.push(String::from_str(name));
            assert(texts(r@) =~= texts(before).push(name@));
        }
        i += 1;
    }
    proof {
        assert(a@.take(i as int) =~= a@);
        lemma_without(a@, b@);
    }
    r
}

/// The text that comes of `tokens` with the bindings `ctx`: each literal as
/// it stands, each placeholder replaced by the value of its name.
pub open spec fn rendered(tokens: Seq<TokenView>, ctx: Map<Seq<char>, Seq<char>>) -> Seq<char>
    decreases tokens.len(),
{
    if tokens.len() == 0 {
        Seq::empty()
    } else {
        rendered(tokens.drop_last(), ctx) + tokens.last().evaluated(ctx)
    }
}

/// True when `ctx` binds the name of every placeholder among `tokens`.
pub open spec fn all_defined(tokens: Seq<TokenView>, ctx: Map<Seq<char>, Seq<char>>) -> bool {
    forall|i: int| 0 <= i < tokens.len() ==> (#[trigger] tokens[i]).defined_in(ctx)
}

/// Fills a template: puts together what its tokens evaluate to. Every
/// placeholder's name has to be bound.
pub fn render<'a>(tokens: &Vec<Token<'a>>, ctx: &'a Bindings) -> (r: String)
    requires
        all_defined(token_views(tokens@), ctx@),
    ensures
        r@ == rendered(token_views(tokens@), ctx@),
{
    let ghost views = token_views(tokens@);
    let mut text = String::new();
    let mut i: usize = 0;
    assert(views.take(0) =~= Seq::<TokenView>::empty());
    while i < tokens.len()
        invariant
            i <= tokens.len(),
            views == token_views(tokens@),
            all_defined(views, ctx@),
            text@ == rendered(views.take(i as int), ctx@),
        decreases tokens.len() - i,
    {
        proof {
            assert(views.take(i + 1).drop_last() =~= views.take(i as int));
            assert(views.take(i + 1).last() == tokens@[i as int]@);
            assert(views[i as int].defined_in(ctx@));
        }
        text.append(tokens[i].eval(ctx));
        i += 1;
    }
    assert(views.take(i as int) =~= views);
    text
}

} // verus!
