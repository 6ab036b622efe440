//! The chain as contracts see it: a map from each wording that something
//! followed to the wordings that followed it, with their counts; what
//! learning does to that map, what a walk over it is, and what holds of both.

use vstd::prelude::*;
use crate::state::tally;
use crate::text::{
    joined, lemma_occurrences_bound, lemma_pieces_joined, lemma_pieces_shape, occurrences, pieces,
};
use crate::wording::{text_of, Words};

verus! {

/// What a chain is in contracts: for each wording that something followed,
/// the wordings that followed it and how often each did.
pub type Graph = Map<Words, Map<Words, nat>>;

/// The transitions that leave `w` in `g`: none, where `g` has no entry for it.
pub open spec fn outgoing(g: Graph, w: Words) -> Map<Words, nat> {
    if g.contains_key(w) {
        g[w]
    } else {
        Map::empty()
    }
}

/// Whether a walk that stands on `w` can go no further.
pub open spec fn dead_end(g: Graph, w: Words) -> bool {
    forall|next: Words| !outgoing(g, w).contains_key(next)
}

/// Whether nothing was learnt yet: no wording has an entry.
pub open spec fn untrained(g: Graph) -> bool {
    forall|w: Words| !g.contains_key(w)
}

/// The graph after `b` was seen once more right after `a`.
pub open spec fn observe(g: Graph, a: Words, b: Words) -> Graph {
    g.insert(a, outgoing(g, a).insert(b, tally(outgoing(g, a), b) + 1))
}

/// The graph after each wording of `ws` but the first was seen once more
/// right after the one before it.
pub open spec fn learn(g: Graph, ws: Seq<Words>) -> Graph
    decreases ws.len(),
{
    if ws.len() < 2 {
        g
    } else {
        observe(learn(g, ws.drop_last()), ws[ws.len() - 2], ws[ws.len() - 1])
    }
}

/// The number of transitions that a line of `n` wordings holds.
pub open spec fn pairs(n: nat) -> nat {
    if n == 0 {
        0
    } else {
        (n - 1) as nat
    }
}

/// Into how many groups of `size` a run of `n` items falls, the last group
/// taking what is left.
pub open spec fn group_count(n: nat, size: nat) -> nat
    recommends
        size > 0,
{
    ((n + size - 1) / (size as int)) as nat
}

/// `items` cut into consecutive groups of `size`; the last group is shorter
/// where `size` does not divide the number of items.
pub open spec fn chunked<T>(items: Seq<T>, size: nat) -> Seq<Seq<T>>
    recommends
        size > 0,
{
    Seq::new(
        group_count(items.len(), size),
        |i: int|
            items.subrange(
                i * size,
                if (i + 1) * size <= items.len() {
                    (i + 1) * size
                } else {
                    items.len() as int
                },
            ),
    )
}

/// The wordings that a line is cut into: its pieces between single spaces,
/// in groups of `size`.
pub open spec fn line_wordings(line: Seq<char>, size: nat) -> Seq<Words> {
    chunked(pieces(line, ' '), size)
}

/// The written form of a walk: the written forms of its wordings with one
/// space between each two.
pub open spec fn rendered(path: Seq<Words>) -> Seq<char> {
    joined(Seq::new(path.len(), |i: int| text_of(path[i])), seq![' '])
}

/// Whether `path` is a walk that generation may take through `g` with at most
/// `bound` hops: it starts on a key, each hop follows a recorded transition,
/// and it ends after `bound` hops or on the first wording that nothing
/// leaves, whichever comes first.
pub open spec fn is_walk(g: Graph, path: Seq<Words>, bound: nat) -> bool {
    &&& path.len() >= 1
    &&& g.contains_key(path[0])
    &&& forall|i: int|
        0 <= i < path.len() - 1 ==> #[trigger] outgoing(g, path[i]).contains_key(path[i + 1])
    &&& path.len() - 1 <= bound
    &&& (path.len() - 1 == bound || dead_end(g, path.last()))
}

/// How often `b` was seen right after `a` in `g`.
pub open spec fn seen(g: Graph, a: Words, b: Words) -> nat {
    tally(outgoing(g, a), b)
}

/// Cutting into groups of `size` gives the least number of groups that can
/// hold the items; every group but the last holds `size` items, the last
/// holds between one and `size`, and the items keep their order.
pub proof fn lemma_chunked_shape<T>(items: Seq<T>, size: nat)
    requires
        size >= 1,
    ensures
        chunked(items, size).len() == group_count(items.len(), size),
        (group_count(items.len(), size) - 1) * size < items.len() || items.len() == 0,
        items.len() <= group_count(items.len(), size) * size,
        items.len() == 0 ==> chunked(items, size).len() == 0,
        forall|i: int|
            0 <= i < chunked(items, size).len() - 1 ==> (#[trigger] chunked(items, size)[i]).len()
                == size,
        items.len() > 0 ==> 1 <= chunked(items, size).last().len() <= size,
        forall|i: int, j: int|
            0 <= i < chunked(items, size).len() && 0 <= j < chunked(items, size)[i].len()
                ==> chunked(items, size)[i][j] == items[i * size + j],
{
    let n = items.len() as int;
    let d = size as int;
    let count = group_count(items.len(), size) as int;
    let x = n + d - 1;
    vstd::arithmetic::div_mod::lemma_fundamental_div_mod(x, d);
    vstd::arithmetic::div_mod::lemma_mod_pos_bound(x, d);
    assert(count == x / d);
    assert(d * count + x % d == x);
    assert(count * d == d * count) by (nonlinear_arith);
    assert((count - 1) * d == count * d - d) by (nonlinear_arith);
    assert(count >= 0);
    if n == 0 {
        assert(count == 0) by (nonlinear_arith)
            requires
                d * count + x % d == d - 1,
                0 <= x % d,
                count >= 0,
                d >= 1,
        ;
    }
    assert forall|i: int| 0 <= i < chunked(items, size).len() - 1 implies (#[trigger] chunked(
        items,
        size,
    )[i]).len() == size by {
        assert((i + 1) * d <= (count - 1) * d) by (nonlinear_arith)
            requires
                i + 1 <= count - 1,
                d >= 1,
        ;
        assert(i * d >= 0) by (nonlinear_arith)
            requires
                i >= 0,
                d >= 1,
        ;
        assert((i + 1) * d - i * d == d) by (nonlinear_arith);
        }
    if n > 0 {
        let last = count - 1;
        assert(count >= 1);
        assert(last * d >= 0) by (nonlinear_arith)
            requires
                last >= 0,
                d >= 1,
        ;
        assert((last + 1) * d == count * d);
    }
    assert forall|i: int, j: int|
        0 <= i < chunked(items, size).len() && 0 <= j < chunked(items, size)[i].len() implies chunked(
        items,
        size,
    )[i][j] == items[i * size + j] by {
        assert(i * d >= 0) by (nonlinear_arith)
            requires
                i >= 0,
                d >= 1,
        ;
        assert(i * d <= (count - 1) * d) by (nonlinear_arith)
            requires
                i <= count - 1,
                d >= 1,
        ;
        assert((i + 1) * d == i * d + d) by (nonlinear_arith);
        let from = i * d;
        let to = if (i + 1) * d <= n {
            (i + 1) * d
        } else {
            n
        };
        assert(0 <= from <= to <= n);
        assert(chunked(items, size)[i] == items.subrange(from, to));
    }
}

/// A line holds fewer transitions than characters, whatever the size of
/// its wordings: no more than it holds spaces.
pub proof fn lemma_line_pairs(line: Seq<char>, size: nat)
    requires
        size >= 1,
    ensures
        pairs(line_wordings(line, size).len()) <= occurrences(line, ' ') <= line.len(),
{
    let words = pieces(line, ' ');
    lemma_pieces_shape(line, ' ');
    lemma_occurrences_bound(line, ' ');
    lemma_chunked_shape(words, size);
    let count = group_count(words.len(), size) as int;
    let n = words.len() as int;
    let d = size as int;
    assert(count >= 1) by (nonlinear_arith)
        requires
            n >= 1,
            n <= count * d,
            d >= 1,
    ;
    assert(count - 1 <= (count - 1) * d) by (nonlinear_arith)
        requires
            count >= 1,
            d >= 1,
    ;
}

/// Seeing `b` after `a` once more raises that one count by exactly one, adds
/// no second entry for either wording, and leaves every other count as it was.
pub proof fn lemma_observe(g: Graph, a: Words, b: Words, c: Words, d: Words)
    ensures
        observe(g, a, b).contains_key(a),
        observe(g, a, b)[a].contains_key(b),
        seen(observe(g, a, b), a, b) == seen(g, a, b) + 1,
        (c != a || d != b) ==> seen(observe(g, a, b), c, d) == seen(g, c, d),
        observe(g, a, b).dom() == g.dom().insert(a),
        observe(g, a, b)[a].dom() == outgoing(g, a).dom().insert(b),
        c != a ==> outgoing(observe(g, a, b), c) == outgoing(g, c),
{
    assert(observe(g, a, b).dom() =~= g.dom().insert(a));
    assert(observe(g, a, b)[a].dom() =~= outgoing(g, a).dom().insert(b));
}

/// How often `b` stands right behind `a` in `ws`.
pub open spec fn adjacent(ws: Seq<Words>, a: Words, b: Words) -> nat
    decreases ws.len(),
{
    if ws.len() < 2 {
        0
    } else if ws[ws.len() - 2] == a && ws[ws.len() - 1] == b {
        adjacent(ws.drop_last(), a, b) + 1
    } else {
        adjacent(ws.drop_last(), a, b)
    }
}

/// Learning a line raises each count by the number of times that the
/// successor stands right behind the predecessor in the line.
pub proof fn lemma_learn_counts(g: Graph, ws: Seq<Words>, a: Words, b: Words)
    ensures
        seen(learn(g, ws), a, b) == seen(g, a, b) + adjacent(ws, a, b),
    decreases ws.len(),
{
    if ws.len() >= 2 {
        lemma_learn_counts(g, ws.drop_last(), a, b);
        lemma_observe(learn(g, ws.drop_last()), ws[ws.len() - 2], ws[ws.len() - 1], a, b);
    }
}

/// Learning never lowers a count.
pub proof fn lemma_learn_grows(g: Graph, ws: Seq<Words>, a: Words, b: Words)
    ensures
        seen(learn(g, ws), a, b) >= seen(g, a, b),
        g.contains_key(a) ==> learn(g, ws).contains_key(a),
    decreases ws.len(),
{
    if ws.len() >= 2 {
        lemma_learn_grows(g, ws.drop_last(), a, b);
        lemma_observe(learn(g, ws.drop_last()), ws[ws.len() - 2], ws[ws.len() - 1], a, b);
    }
}

/// After a line of two wordings or more was learnt, each of its wordings but
/// the last has an entry, in which the wording behind it is counted at least
/// once.
pub proof fn lemma_learn_pairs(g: Graph, ws: Seq<Words>, i: int)
    requires
        0 <= i < ws.len() - 1,
    ensures
        learn(g, ws).contains_key(ws[i]),
        learn(g, ws)[ws[i]].contains_key(ws[i + 1]),
        learn(g, ws)[ws[i]][ws[i + 1]] >= 1,
    decreases ws.len(),
{
    let before = learn(g, ws.drop_last());
    let a = ws[ws.len() - 2];
    let b = ws[ws.len() - 1];
    lemma_observe(before, a, b, ws[i], ws[i + 1]);
    if i < ws.len() - 2 {
        lemma_learn_pairs(g, ws.drop_last(), i);
        assert(seen(before, ws[i], ws[i + 1]) >= 1);
        assert(seen(learn(g, ws), ws[i], ws[i + 1]) >= 1);
    }
}

/// A line of one wording or none teaches nothing: the graph stays as it was,
/// so the lone wording gets no entry.
pub proof fn lemma_learn_short(g: Graph, ws: Seq<Words>)
    requires
        ws.len() <= 1,
    ensures
        learn(g, ws) == g,
{
}

/// Learning a line gives an entry to each of its wordings but the last, and
/// to no other wording that had none.
pub proof fn lemma_learn_keys(g: Graph, ws: Seq<Words>, w: Words)
    ensures
        learn(g, ws).contains_key(w) <==> g.contains_key(w) || exists|i: int|
            0 <= i < ws.len() - 1 && #[trigger] ws[i] == w,
    decreases ws.len(),
{
    if ws.len() >= 2 {
        let shorter = ws.drop_last();
        lemma_learn_keys(g, shorter, w);
        lemma_observe(learn(g, shorter), ws[ws.len() - 2], ws[ws.len() - 1], w, w);
        if learn(g, ws).contains_key(w) && !g.contains_key(w) {
            if learn(g, shorter).contains_key(w) {
                let i = choose|i: int| 0 <= i < shorter.len() - 1 && #[trigger] shorter[i] == w;
                assert(ws[i] == w);
            } else {
                assert(ws[ws.len() - 2] == w);
            }
        }
        if exists|i: int| 0 <= i < ws.len() - 1 && #[trigger] ws[i] == w {
            let i = choose|i: int| 0 <= i < ws.len() - 1 && #[trigger] ws[i] == w;
            if i < ws.len() - 2 {
                assert(shorter[i] == w);
            }
        }
    }
}

/// What is joined begins with its first piece.
pub proof fn lemma_joined_starts(words: Seq<Seq<char>>, sep: Seq<char>)
    requires
        words.len() >= 1,
    ensures
        words[0].is_prefix_of(joined(words, sep)),
    decreases words.len(),
{
    if words.len() >= 2 {
        lemma_joined_starts(words.drop_last(), sep);
    }
}

/// The written form of a walk begins with the written form of the wording
/// on which the walk starts.
pub proof fn lemma_rendered_starts(path: Seq<Words>)
    requires
        path.len() >= 1,
    ensures
        text_of(path[0]).is_prefix_of(rendered(path)),
{
    lemma_joined_starts(Seq::new(path.len(), |i: int| text_of(path[i])), seq![' ']);
}

/// The words of a walk in their order, where each of its wordings is one word.
pub open spec fn walk_words(path: Seq<Words>) -> Seq<Seq<char>> {
    Seq::new(path.len(), |i: int| path[i][0])
}

/// Where the wordings are single words without a space, the written form of
/// a walk, cut at its spaces, is the words of the walk: the first is a word
/// with an entry, and each of the others is a word that was seen to follow
/// the word before it.
pub proof fn lemma_walk_words(g: Graph, path: Seq<Words>, bound: nat)
    requires
        is_walk(g, path, bound),
        forall|i: int|
            0 <= i < path.len() ==> (#[trigger] path[i]).len() == 1 && !path[i][0].contains(' '),
    ensures
        pieces(rendered(path), ' ') == walk_words(path),
        pieces(rendered(path), ' ').len() <= bound + 1,
        g.contains_key(seq![pieces(rendered(path), ' ')[0]]),
        forall|i: int|
            0 <= i < pieces(rendered(path), ' ').len() - 1 ==> outgoing(
                g,
                seq![#[trigger] pieces(rendered(path), ' ')[i]],
            ).contains_key(seq![pieces(rendered(path), ' ')[i + 1]]),
{
    let written = Seq::new(path.len(), |i: int| text_of(path[i]));
    assert(written =~= walk_words(path));
    assert forall|i: int| 0 <= i < walk_words(path).len() implies !(#[trigger] walk_words(
        path,
    )[i]).contains(' ') by {
        assert(path[i].len() == 1);
    }
    lemma_pieces_joined(walk_words(path), ' ');
    assert forall|i: int| 0 <= i < path.len() implies seq![walk_words(path)[i]] == #[trigger] path[i] by {
        assert(path[i].len() == 1);
        assert(seq![path[i][0]] =~= path[i]);
    }
    assert(seq![walk_words(path)[0]] == path[0]);
    assert forall|i: int| 0 <= i < walk_words(path).len() - 1 implies outgoing(
        g,
        seq![#[trigger] walk_words(path)[i]],
    ).contains_key(seq![walk_words(path)[i + 1]]) by {
        assert(seq![walk_words(path)[i]] == path[i]);
        assert(seq![walk_words(path)[i + 1]] == path[i + 1]);
        assert(outgoing(g, path[i]).contains_key(path[i + 1]));
    }
}

/// A walk of no hops is its starting wording alone, and its written form is
/// that wording's.
pub proof fn lemma_walk_without_hops(g: Graph, path: Seq<Words>)
    requires
        is_walk(g, path, 0),
    ensures
        path.len() == 1,
        rendered(path) == text_of(path[0]),
{
}

/// The graph after each line of `lines` was learnt in turn, cut into
/// wordings of `size` words.
pub open spec fn taught(g: Graph, lines: Seq<Seq<char>>, size: nat) -> Graph
    decreases lines.len(),
{
    if lines.len() == 0 {
        g
    } else {
        learn(taught(g, lines.drop_last(), size), line_wordings(lines.last(), size))
    }
}

/// The number of transitions that the lines hold together, each cut into
/// wordings of `size` words.
pub open spec fn total_pairs(lines: Seq<Seq<char>>, size: nat) -> nat
    decreases lines.len(),
{
    if lines.len() == 0 {
        0
    } else {
        total_pairs(lines.drop_last(), size) + pairs(line_wordings(lines.last(), size).len())
    }
}

/// The first lines of a text hold no more transitions than all of them.
pub proof fn lemma_total_pairs_prefix(lines: Seq<Seq<char>>, size: nat, k: int)
    requires
        0 <= k <= lines.len(),
    ensures
        total_pairs(lines.take(k), size) <= total_pairs(lines, size),
    decreases lines.len(),
{
    if k == lines.len() {
        assert(lines.take(k) =~= lines);
    } else {
        lemma_total_pairs_prefix(lines.drop_last(), size, k);
        assert(lines.drop_last().take(k) =~= lines.take(k));
    }
}

/// The number of characters that the lines hold together.
pub open spec fn total_chars(lines: Seq<Seq<char>>) -> nat
    decreases lines.len(),
{
    if lines.len() == 0 {
        0
    } else {
        total_chars(lines.drop_last()) + lines.last().len()
    }
}

/// Lines hold fewer transitions than characters, whatever the size of their
/// wordings.
pub proof fn lemma_total_pairs_bound(lines: Seq<Seq<char>>, size: nat)
    requires
        size >= 1,
    ensures
        total_pairs(lines, size) <= total_chars(lines),
    decreases lines.len(),
{
    if lines.len() > 0 {
        lemma_total_pairs_bound(lines.drop_last(), size);
        lemma_line_pairs(lines.last(), size);
    }
}

/// Learning lines, however many, never lowers a count and never takes an
/// entry away.
pub proof fn lemma_taught_grows(g: Graph, lines: Seq<Seq<char>>, size: nat, a: Words, b: Words)
    ensures
        seen(taught(g, lines, size), a, b) >= seen(g, a, b),
        g.contains_key(a) ==> taught(g, lines, size).contains_key(a),
    decreases lines.len(),
{
    if lines.len() > 0 {
        lemma_taught_grows(g, lines.drop_last(), size, a, b);
        lemma_learn_grows(
            taught(g, lines.drop_last(), size),
            line_wordings(lines.last(), size),
            a,
            b,
        );
    }
}

} // verus!
