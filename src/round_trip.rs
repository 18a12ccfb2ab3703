//! Reading back what the writer wrote gives the same tree.
use vstd::prelude::*;
use crate::generic::{
    lemma_find_at, lemma_find_entry, add_child, add_value, block_close, block_open, blocks_text, empty_tree, find_entry,
    group_text, pair_line, pairs_text, parse_text, read_items, read_pair, tree_text, values_text,
    GenericNode, Tree,
};
use crate::text::{
    crlf, is_letter, is_ws, lemma_scan_at, lemma_scan_bounds, lemma_trim_end_at,
    lemma_trim_end_bounds, scan, stops, tabs, trim_end, Stop,
};

verus! {

pub open spec fn quote_free(s: Seq<char>) -> bool {
    forall|i: int| 0 <= i < s.len() ==> s[i] != '"'
}

/// A block name that the reader reads back as it is: it starts with a letter,
/// holds no `{` and does not end in whitespace.
pub open spec fn valid_name(s: Seq<char>) -> bool {
    &&& s.len() >= 1
    &&& is_letter(s[0])
    &&& forall|i: int| 0 <= i < s.len() ==> #[trigger] s[i] != '{'
    &&& !is_ws(s.last())
}

pub open spec fn names_distinct<V>(entries: Seq<(Seq<char>, V)>) -> bool {
    forall|i: int, j: int| 0 <= i < j < entries.len() ==> entries[i].0 != entries[j].0
}

/// A tree whose text reads back as the tree: keys and values hold no quote,
/// block names are names, every list is nonempty and every key and block name
/// has one entry.
pub open spec fn well_formed(t: Tree) -> bool
    decreases t,
{
    &&& names_distinct(t.pairs)
    &&& names_distinct(t.blocks)
    &&& forall|i: int|
        0 <= i < t.pairs.len() ==> {
            &&& quote_free(#[trigger] t.pairs[i].0)
            &&& t.pairs[i].1.len() > 0
            &&& forall|j: int| 0 <= j < t.pairs[i].1.len() ==> quote_free(#[trigger] t.pairs[i].1[j])
        }
    &&& forall|i: int|
        0 <= i < t.blocks.len() ==> valid_name(#[trigger] t.blocks[i].0) && t.blocks[i].1.len() > 0
    &&& forall|i: int, j: int|
        0 <= i < t.blocks.len() && 0 <= j < t.blocks[i].1.len() ==> well_formed(
            #[trigger] t.blocks[i].1[j],
        )
}

proof fn lemma_tabs(n: nat)
    ensures
        tabs(n).len() == n,
        forall|i: int| 0 <= i < n ==> #[trigger] tabs(n)[i] == '\t',
    decreases n,
{
    if n > 0 {
        lemma_tabs((n - 1) as nat);
    }
}

/// Whitespace before the items changes nothing.
proof fn lemma_skip_ws(w: Seq<char>, y: Seq<char>, top: bool, acc: Tree)
    requires
        forall|i: int| 0 <= i < w.len() ==> is_ws(#[trigger] w[i]),
    ensures
        read_items(w + y, top, acc) == read_items(y, top, acc),
    decreases w.len(),
{
    if w.len() > 0 {
        assert((w + y)[0] == w[0]);
        assert((w + y).skip(1) =~= w.skip(1) + y);
        lemma_skip_ws(w.skip(1), y, top, acc);
    }
}

proof fn lemma_pair_line(k: Seq<char>, v: Seq<char>, ind: nat, z: Seq<char>, top: bool, acc: Tree)
    requires
        quote_free(k),
        quote_free(v),
    ensures
        read_items(pair_line(k, v, ind) + z, top, acc) == read_items(z, top, add_value(acc, k, v)),
{
    let u = seq!['"'] + k + seq!['"', ' ', '"'] + v + seq!['"'] + crlf() + z;
    lemma_tabs(ind);
    assert(pair_line(k, v, ind) + z =~= tabs(ind) + u);
    lemma_skip_ws(tabs(ind), u, top, acc);
    let q1: int = k.len() as int + 1;
    assert forall|p: int| 1 <= p < q1 implies u[p] != '"' by {
        assert(u[p] == k[p - 1]);
    }
    lemma_scan_at(u, 1, Stop::Quote, q1);
    lemma_scan_at(u, q1 + 1, Stop::NonSpace, q1 + 2);
    let q3: int = q1 + 3 + v.len() as int;
    assert forall|p: int| q1 + 3 <= p < q3 implies u[p] != '"' by {
        assert(u[p] == v[p - q1 - 3]);
    }
    lemma_scan_at(u, q1 + 3, Stop::Quote, q3);
    assert(u.subrange(1, q1) =~= k);
    assert(u.subrange(q1 + 3, q3) =~= v);
    assert(read_pair(u) == Ok::<(Seq<char>, Seq<char>, int), crate::error::Error>((k, v, q3 + 1)));
    assert(u.skip(q3 + 1) =~= crlf() + z);
    lemma_skip_ws(crlf(), z, top, add_value(acc, k, v));
}

proof fn lemma_values_text(
    k: Seq<char>,
    vs: Seq<Seq<char>>,
    ind: nat,
    z: Seq<char>,
    top: bool,
    acc: Tree,
)
    requires
        quote_free(k),
        vs.len() > 0,
        forall|j: int| 0 <= j < vs.len() ==> quote_free(#[trigger] vs[j]),
        forall|j: int| 0 <= j < acc.pairs.len() ==> #[trigger] acc.pairs[j].0 != k,
    ensures
        read_items(values_text(k, vs, ind) + z, top, acc) == read_items(
            z,
            top,
            Tree { pairs: acc.pairs.push((k, vs)), ..acc },
        ),
    decreases vs.len(),
{
    let last = vs.last();
    if vs.len() == 1 {
        assert(vs.drop_last().len() == 0);
        assert(values_text(k, vs.drop_last(), ind) == Seq::<char>::empty());
        assert(values_text(k, vs, ind) =~= pair_line(k, last, ind));
        lemma_pair_line(k, last, ind, z, top, acc);
        lemma_find_at(acc.pairs, k, 0, acc.pairs.len() as int);
        assert(seq![last] =~= vs);
    } else {
        let front = vs.drop_last();
        assert(values_text(k, vs, ind) + z =~= values_text(k, front, ind) + (pair_line(k, last, ind)
            + z));
        lemma_values_text(k, front, ind, pair_line(k, last, ind) + z, top, acc);
        let acc1 = Tree { pairs: acc.pairs.push((k, front)), ..acc };
        lemma_pair_line(k, last, ind, z, top, acc1);
        lemma_find_at(acc1.pairs, k, 0, acc.pairs.len() as int);
        assert(front.push(last) =~= vs);
        assert(acc1.pairs.update(acc.pairs.len() as int, (k, front.push(last))) =~= acc.pairs.push(
            (k, vs),
        ));
    }
}

proof fn lemma_pairs_text(
    ps: Seq<(Seq<char>, Seq<Seq<char>>)>,
    ind: nat,
    z: Seq<char>,
    top: bool,
    acc: Tree,
)
    requires
        acc.pairs.len() == 0,
        names_distinct(ps),
        forall|i: int|
            0 <= i < ps.len() ==> {
                &&& quote_free(#[trigger] ps[i].0)
                &&& ps[i].1.len() > 0
                &&& forall|j: int| 0 <= j < ps[i].1.len() ==> quote_free(#[trigger] ps[i].1[j])
            },
    ensures
        read_items(pairs_text(ps, ind) + z, top, acc) == read_items(
            z,
            top,
            Tree { pairs: ps, ..acc },
        ),
    decreases ps.len(),
{
    if ps.len() == 0 {
        assert(acc.pairs =~= ps);
        assert(pairs_text(ps, ind) + z =~= z);
    } else {
        let front = ps.drop_last();
        let last = ps.last();
        assert(pairs_text(ps, ind) + z =~= pairs_text(front, ind) + (values_text(last.0, last.1, ind)
            + z));
        lemma_pairs_text(front, ind, values_text(last.0, last.1, ind) + z, top, acc);
        let acc1 = Tree { pairs: front, ..acc };
        assert(ps[ps.len() - 1] == last);
        lemma_values_text(last.0, last.1, ind, z, top, acc1);
        assert(front.push(last) =~= ps);
    }
}

proof fn lemma_block(name: Seq<char>, child: Tree, ind: nat, z: Seq<char>, top: bool, acc: Tree)
    requires
        valid_name(name),
        well_formed(child),
    ensures
        read_items(
            block_open(name, ind) + tree_text(child, ind + 1) + block_close(ind) + z,
            top,
            acc,
        ) == read_items(z, top, add_child(acc, name, child)),
    decreases child, 3int, 0int,
{
    lemma_tabs(ind);
    let body = tree_text(child, ind + 1);
    let close = block_close(ind) + z;
    let u = name + crlf() + tabs(ind) + seq!['{'] + crlf() + body + close;
    assert(block_open(name, ind) + body + block_close(ind) + z =~= tabs(ind) + u);
    lemma_skip_ws(tabs(ind), u, top, acc);
    let e = name.len() as int;
    let b = e + 2 + ind;
    assert forall|p: int| 1 <= p < b implies !stops(Stop::Char('{'), u[p]) by {
        if p < e {
            assert(u[p] == name[p]);
        } else if p >= e + 2 {
            assert(u[p] == tabs(ind)[p - e - 2]);
        }
    }
    assert(u[b] == '{');
    lemma_scan_at(u, 1, Stop::Char('{'), b);
    assert forall|p: int| e <= p < b implies is_ws(#[trigger] u[p]) by {
        if p >= e + 2 {
            assert(u[p] == tabs(ind)[p - e - 2]);
        }
    }
    assert(u[e - 1] == name.last());
    lemma_trim_end_at(u, b, e);
    assert(u.subrange(0, e) =~= name);
    assert(u.skip(b + 1) =~= crlf() + (body + close));
    lemma_skip_ws(crlf(), body + close, false, empty_tree());
    lemma_tree(child, ind + 1, close, false);
    let w = seq!['}'] + crlf() + z;
    assert(close =~= tabs(ind) + w);
    lemma_skip_ws(tabs(ind), w, false, child);
    assert(w.skip(1) =~= crlf() + z);
    lemma_skip_ws(crlf(), z, top, add_child(acc, name, child));
}

proof fn lemma_group_text(t: Tree, i: int, n: int, ind: nat, z: Seq<char>, top: bool, acc: Tree)
    requires
        well_formed(t),
        0 <= i < t.blocks.len(),
        1 <= n <= t.blocks[i].1.len(),
        forall|j: int| 0 <= j < acc.blocks.len() ==> #[trigger] acc.blocks[j].0 != t.blocks[i].0,
    ensures
        read_items(group_text(t, i, n, ind) + z, top, acc) == read_items(
            z,
            top,
            Tree { blocks: acc.blocks.push((t.blocks[i].0, t.blocks[i].1.take(n))), ..acc },
        ),
    decreases t, 0int, n,
{
    let name = t.blocks[i].0;
    let kids = t.blocks[i].1;
    let last = kids[n - 1];
    assert(well_formed(last));
    let line = block_open(name, ind) + tree_text(last, ind + 1) + block_close(ind);
    assert(group_text(t, i, n, ind) + z =~= group_text(t, i, n - 1, ind) + (line + z));
    assert(line + z =~= block_open(name, ind) + tree_text(last, ind + 1) + block_close(ind) + z);
    if n == 1 {
        assert(group_text(t, i, 0, ind) + (line + z) =~= line + z);
        lemma_block(name, last, ind, z, top, acc);
        lemma_find_at(acc.blocks, name, 0, acc.blocks.len() as int);
        assert(seq![last] =~= kids.take(1));
    } else {
        lemma_group_text(t, i, n - 1, ind, line + z, top, acc);
        let acc1 = Tree { blocks: acc.blocks.push((name, kids.take(n - 1))), ..acc };
        lemma_block(name, last, ind, z, top, acc1);
        lemma_find_at(acc1.blocks, name, 0, acc.blocks.len() as int);
        assert(kids.take(n - 1).push(last) =~= kids.take(n));
        assert(acc1.blocks.update(acc.blocks.len() as int, (name, kids.take(n - 1).push(last)))
            =~= acc.blocks.push((name, kids.take(n))));
    }
}

proof fn lemma_blocks_text(t: Tree, n: int, ind: nat, z: Seq<char>, top: bool, acc: Tree)
    requires
        well_formed(t),
        0 <= n <= t.blocks.len(),
        acc.blocks.len() == 0,
    ensures
        read_items(blocks_text(t, n, ind) + z, top, acc) == read_items(
            z,
            top,
            Tree { blocks: t.blocks.take(n), ..acc },
        ),
    decreases t, 1int, n,
{
    if n == 0 {
        assert(blocks_text(t, n, ind) + z =~= z);
        assert(t.blocks.take(0) =~= acc.blocks);
    } else {
        let g = group_text(t, n - 1, t.blocks[n - 1].1.len() as int, ind);
        assert(blocks_text(t, n, ind) + z =~= blocks_text(t, n - 1, ind) + (g + z));
        lemma_blocks_text(t, n - 1, ind, g + z, top, acc);
        let acc1 = Tree { blocks: t.blocks.take(n - 1), ..acc };
        assert forall|j: int| 0 <= j < acc1.blocks.len() implies #[trigger] acc1.blocks[j].0
            != t.blocks[n - 1].0 by {
            assert(acc1.blocks[j] == t.blocks[j]);
        }
        lemma_group_text(t, n - 1, t.blocks[n - 1].1.len() as int, ind, z, top, acc1);
        assert(t.blocks[n - 1].1.take(t.blocks[n - 1].1.len() as int) =~= t.blocks[n - 1].1);
        assert(acc1.blocks.push(t.blocks[n - 1]) =~= t.blocks.take(n));
    }
}

proof fn lemma_tree(t: Tree, ind: nat, z: Seq<char>, top: bool)
    requires
        well_formed(t),
    ensures
        read_items(tree_text(t, ind) + z, top, empty_tree()) == read_items(z, top, t),
    decreases t, 2int, 0int,
{
    let bt = blocks_text(t, t.blocks.len() as int, ind);
    assert(tree_text(t, ind) + z =~= pairs_text(t.pairs, ind) + (bt + z));
    lemma_pairs_text(t.pairs, ind, bt + z, top, empty_tree());
    let acc1 = Tree { pairs: t.pairs, ..empty_tree() };
    lemma_blocks_text(t, t.blocks.len() as int, ind, z, top, acc1);
    assert(t.blocks.take(t.blocks.len() as int) =~= t.blocks);
}

/// Reading the text that `GenericNode::to_string` writes for a well-formed
/// node gives back the same keys with the same values and the same block
/// names with the same children, in the same order.
pub proof fn lemma_round_trip(n: GenericNode)
    requires
        well_formed(n@),
    ensures
        parse_text(tree_text(n@, 0)) == Ok::<Tree, crate::error::Error>(n@),
{
    lemma_tree(n@, 0, Seq::empty(), true);
    assert(tree_text(n@, 0) + Seq::<char>::empty() =~= tree_text(n@, 0));
}

proof fn lemma_add_value_wf(t: Tree, k: Seq<char>, v: Seq<char>)
    requires
        well_formed(t),
        quote_free(k),
        quote_free(v),
    ensures
        well_formed(add_value(t, k, v)),
{
    let t2 = add_value(t, k, v);
    lemma_find_entry(t.pairs, k, 0);
    let i = find_entry(t.pairs, k, 0);
    assert(t2.blocks == t.blocks);
    assert forall|a: int| 0 <= a < t2.pairs.len() implies {
        &&& quote_free(#[trigger] t2.pairs[a].0)
        &&& t2.pairs[a].1.len() > 0
        &&& forall|j: int| 0 <= j < t2.pairs[a].1.len() ==> quote_free(#[trigger] t2.pairs[a].1[j])
    } by {
        if a == i {
            assert forall|j: int| 0 <= j < t2.pairs[a].1.len() implies quote_free(
                #[trigger] t2.pairs[a].1[j],
            ) by {
                if i < t.pairs.len() && j < t.pairs[i].1.len() {
                    assert(t2.pairs[a].1[j] == t.pairs[i].1[j]);
                }
            }
        }
    }
    assert(names_distinct(t2.pairs));
}

proof fn lemma_add_child_wf(t: Tree, name: Seq<char>, c: Tree)
    requires
        well_formed(t),
        valid_name(name),
        well_formed(c),
    ensures
        well_formed(add_child(t, name, c)),
{
    let t2 = add_child(t, name, c);
    lemma_find_entry(t.blocks, name, 0);
    let i = find_entry(t.blocks, name, 0);
    assert(t2.pairs == t.pairs);
    assert forall|a: int, j: int|
        0 <= a < t2.blocks.len() && 0 <= j < t2.blocks[a].1.len() implies well_formed(
        #[trigger] t2.blocks[a].1[j],
    ) by {
        if a == i && i < t.blocks.len() && j < t.blocks[i].1.len() {
            assert(t2.blocks[a].1[j] == t.blocks[i].1[j]);
        }
    }
    assert(names_distinct(t2.blocks));
}

proof fn lemma_read_items_wf(s: Seq<char>, top: bool, acc: Tree)
    requires
        well_formed(acc),
    ensures
        read_items(s, top, acc) matches Ok((t, _)) ==> well_formed(t),
    decreases s.len(),
{
    if s.len() == 0 {
    } else if is_ws(s[0]) {
        lemma_read_items_wf(s.skip(1), top, acc);
    } else if s[0] == '"' {
        crate::generic::lemma_read_pair(s);
        match read_pair(s) {
            Ok((k, v, n)) => {
                let q1 = scan(s, 1, Stop::Quote);
                lemma_scan_bounds(s, 1, Stop::Quote);
                let q2 = scan(s, q1 + 1, Stop::NonSpace);
                lemma_scan_bounds(s, q1 + 1, Stop::NonSpace);
                let q3 = scan(s, q2 + 1, Stop::Quote);
                lemma_scan_bounds(s, q2 + 1, Stop::Quote);
                assert forall|i: int| 0 <= i < k.len() implies k[i] != '"' by {
                    assert(k[i] == s[i + 1]);
                    assert(!stops(Stop::Quote, s[i + 1]));
                }
                assert forall|i: int| 0 <= i < v.len() implies v[i] != '"' by {
                    assert(v[i] == s[q2 + 1 + i]);
                    assert(!stops(Stop::Quote, s[q2 + 1 + i]));
                }
                lemma_add_value_wf(acc, k, v);
                lemma_read_items_wf(s.skip(n), top, add_value(acc, k, v));
            },
            Err(_) => {},
        }
    } else if is_letter(s[0]) {
        let b = scan(s, 1, Stop::Char('{'));
        lemma_scan_bounds(s, 1, Stop::Char('{'));
        let e = trim_end(s, b);
        lemma_trim_end_bounds(s, b);
        if b < s.len() {
            lemma_read_items_wf(s.skip(b + 1), false, empty_tree());
            match read_items(s.skip(b + 1), false, empty_tree()) {
                Ok((child, rest)) => {
                    if rest.len() < s.len() {
                        assert(e >= 1) by {
                            if e == 0 {
                                assert(is_ws(s[0]));
                            }
                        }
                        let name = s.subrange(0, e);
                        assert forall|i: int| 0 <= i < name.len() implies #[trigger] name[i]
                            != '{' by {
                            assert(name[i] == s[i]);
                            if i >= 1 {
                                assert(!stops(Stop::Char('{'), s[i]));
                            }
                        }
                        assert(name.last() == s[e - 1]);
                        lemma_add_child_wf(acc, name, child);
                        lemma_read_items_wf(rest, top, add_child(acc, name, child));
                    }
                },
                Err(_) => {},
            }
        }
    }
}

/// Every tree that the reader gives is well-formed, so writing it and reading
/// the text back gives the same tree.
pub proof fn lemma_reread(s: Seq<char>)
    requires
        parse_text(s) is Ok,
    ensures
        well_formed(parse_text(s)->Ok_0),
        parse_text(tree_text(parse_text(s)->Ok_0, 0)) == parse_text(s),
{
    assert(well_formed(empty_tree()));
    lemma_read_items_wf(s, true, empty_tree());
    let t = parse_text(s)->Ok_0;
    lemma_tree(t, 0, Seq::empty(), true);
    assert(tree_text(t, 0) + Seq::<char>::empty() =~= tree_text(t, 0));
}

} // verus!
