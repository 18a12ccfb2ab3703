//! The generic tree of the text format: keys with ordered value lists and
//! block names with ordered child lists, its reader and its writer.
use vstd::prelude::*;
use crate::text::{
    chars_of, crlf, is_letter, is_letter_char, is_ws, is_ws_char, lemma_scan_bounds, lemma_scan_skip,
    scan, scan_chars, substring, tabs, trim_end, Serializer, Stop,
};
use crate::error::Error;

verus! {

/// What a [`GenericNode`] holds: each key with its values, each block name
/// with its children, both in order of first appearance.
pub struct Tree {
    pub pairs: Seq<(Seq<char>, Seq<Seq<char>>)>,
    pub blocks: Seq<(Seq<char>, Seq<Tree>)>,
}

pub open spec fn empty_tree() -> Tree {
    Tree { pairs: Seq::empty(), blocks: Seq::empty() }
}

/// A node of the text format. Each key and each block name occurs in one entry
/// only; repeated keys and blocks extend that entry's list.
#[derive(Debug)]
pub struct GenericNode {
    pub key_value_pairs: Vec<(String, Vec<String>)>,
    pub children_nodes: Vec<(String, Vec<GenericNode>)>,
}

pub open spec fn strings_view(v: Vec<String>) -> Seq<Seq<char>> {
    Seq::new(v@.len(), |i: int| v@[i]@)
}

pub open spec fn pairs_view(v: Seq<(String, Vec<String>)>) -> Seq<(Seq<char>, Seq<Seq<char>>)> {
    Seq::new(v.len(), |i: int| (v[i].0@, strings_view(v[i].1)))
}

pub open spec fn tree_of(n: GenericNode) -> Tree
    decreases n,
{
    Tree {
        pairs: pairs_view(n.key_value_pairs@),
        blocks: Seq::new(
            n.children_nodes@.len(),
            |i: int|
                (
                    n.children_nodes@[i].0@,
                    Seq::new(
                        n.children_nodes@[i].1@.len(),
                        |j: int|
                            if 0 <= i < n.children_nodes@.len() && 0 <= j
                                < n.children_nodes@[i].1@.len() {
                                tree_of(n.children_nodes@[i].1@[j])
                            } else {
                                empty_tree()
                            },
                    ),
                ),
        ),
    }
}

pub open spec fn trees_view(v: Seq<GenericNode>) -> Seq<Tree> {
    Seq::new(v.len(), |j: int| tree_of(v[j]))
}

pub open spec fn blocks_view(v: Seq<(String, Vec<GenericNode>)>) -> Seq<(Seq<char>, Seq<Tree>)> {
    Seq::new(v.len(), |i: int| (v[i].0@, trees_view(v[i].1@)))
}

pub proof fn lemma_tree_of(n: GenericNode)
    ensures
        tree_of(n) == (Tree {
            pairs: pairs_view(n.key_value_pairs@),
            blocks: blocks_view(n.children_nodes@),
        }),
{
    let t = tree_of(n);
    let b = blocks_view(n.children_nodes@);
    assert forall|i: int| 0 <= i < b.len() implies t.blocks[i] == b[i] by {
        assert(t.blocks[i].1 =~= b[i].1);
    }
    assert(t.blocks =~= b);
}

impl View for GenericNode {
    type V = Tree;

    open spec fn view(&self) -> Tree {
        tree_of(*self)
    }
}

/// The index of the entry named `k`, or `entries.len()` when there is none.
pub open spec fn find_entry<V>(entries: Seq<(Seq<char>, V)>, k: Seq<char>, from: int) -> int
    decreases entries.len() - from,
{
    if from >= entries.len() {
        entries.len() as int
    } else if entries[from].0 == k {
        from
    } else {
        find_entry(entries, k, from + 1)
    }
}

pub proof fn lemma_find_entry<V>(entries: Seq<(Seq<char>, V)>, k: Seq<char>, from: int)
    requires
        0 <= from <= entries.len(),
    ensures
        from <= find_entry(entries, k, from) <= entries.len(),
        find_entry(entries, k, from) < entries.len() ==> entries[find_entry(entries, k, from)].0 == k,
        forall|j: int| from <= j < find_entry(entries, k, from) ==> #[trigger] entries[j].0 != k,
    decreases entries.len() - from,
{
    if from < entries.len() && entries[from].0 != k {
        lemma_find_entry(entries, k, from + 1);
    }
}

/// The search for `k` ends at `r` when no entry before it is named `k` and
/// entry `r` is.
pub proof fn lemma_find_at<V>(entries: Seq<(Seq<char>, V)>, k: Seq<char>, from: int, r: int)
    requires
        0 <= from <= r <= entries.len(),
        forall|j: int| from <= j < r ==> #[trigger] entries[j].0 != k,
        r < entries.len() ==> entries[r].0 == k,
    ensures
        find_entry(entries, k, from) == r,
    decreases r - from,
{
    if from < r {
        lemma_find_at(entries, k, from + 1, r);
    }
}

/// Appends `x` to the list of the entry named `k`, or adds an entry `(k, [x])`.
pub open spec fn append_entry<V>(entries: Seq<(Seq<char>, Seq<V>)>, k: Seq<char>, x: V) -> Seq<
    (Seq<char>, Seq<V>),
> {
    let i = find_entry(entries, k, 0);
    if i < entries.len() {
        entries.update(i, (k, entries[i].1.push(x)))
    } else {
        entries.push((k, seq![x]))
    }
}

/// Sets the list of the entry named `k` to `xs`, adding the entry when there is none.
pub open spec fn replace_entry<V>(entries: Seq<(Seq<char>, V)>, k: Seq<char>, xs: V) -> Seq<
    (Seq<char>, V),
> {
    let i = find_entry(entries, k, 0);
    if i < entries.len() {
        entries.update(i, (k, xs))
    } else {
        entries.push((k, xs))
    }
}

/// The list of the entry named `k` and the entries without it.
pub open spec fn take_entry<V>(entries: Seq<(Seq<char>, V)>, k: Seq<char>) -> Option<(V, Seq<(Seq<char>, V)>)> {
    let i = find_entry(entries, k, 0);
    if i < entries.len() {
        Some((entries[i].1, entries.remove(i)))
    } else {
        None
    }
}

/// The last value of key `k`, and the tree without the key; none where the
/// key is absent or has no value.
pub open spec fn take_last_value(t: Tree, k: Seq<char>) -> Option<(Seq<char>, Tree)> {
    match take_entry(t.pairs, k) {
        Some((vs, ps)) => if vs.len() > 0 {
            Some((vs.last(), Tree { pairs: ps, ..t }))
        } else {
            None
        },
        None => None,
    }
}

/// The children named `name`, and the tree without them.
pub open spec fn take_blocks(t: Tree, name: Seq<char>) -> Option<(Seq<Tree>, Tree)> {
    match take_entry(t.blocks, name) {
        Some((cs, bs)) => Some((cs, Tree { blocks: bs, ..t })),
        None => None,
    }
}

/// The first value of key `k`.
pub open spec fn first_value(t: Tree, k: Seq<char>) -> Option<Seq<char>> {
    let i = find_entry(t.pairs, k, 0);
    if i < t.pairs.len() && t.pairs[i].1.len() > 0 {
        Some(t.pairs[i].1[0])
    } else {
        None
    }
}

pub open spec fn add_value(t: Tree, k: Seq<char>, v: Seq<char>) -> Tree {
    Tree { pairs: append_entry(t.pairs, k, v), ..t }
}

pub open spec fn add_child(t: Tree, name: Seq<char>, c: Tree) -> Tree {
    Tree { blocks: append_entry(t.blocks, name, c), ..t }
}

/// Reads `"key" "value"` at the start of `s`, which starts with a quote: the
/// key, the value, and how many characters were read.
pub open spec fn read_pair(s: Seq<char>) -> Result<(Seq<char>, Seq<char>, int), Error> {
    let q1 = scan(s, 1, Stop::Quote);
    if q1 >= s.len() {
        Err(Error::UnexpectedEndOfInput)
    } else {
        let q2 = scan(s, q1 + 1, Stop::NonSpace);
        if q2 >= s.len() {
            Err(Error::UnexpectedEndOfInput)
        } else if s[q2] != '"' {
            Err(Error::UnexpectedToken)
        } else {
            let q3 = scan(s, q2 + 1, Stop::Quote);
            if q3 >= s.len() {
                Err(Error::UnexpectedEndOfInput)
            } else {
                Ok((s.subrange(1, q1), s.subrange(q2 + 1, q3), q3 + 1))
            }
        }
    }
}

pub proof fn lemma_read_pair(s: Seq<char>)
    requires
        s.len() >= 1,
    ensures
        read_pair(s) matches Ok((k, v, n)) ==> 1 <= n <= s.len(),
{
    lemma_scan_bounds(s, 1, Stop::Quote);
    let q1 = scan(s, 1, Stop::Quote);
    if q1 < s.len() {
        lemma_scan_bounds(s, q1 + 1, Stop::NonSpace);
        let q2 = scan(s, q1 + 1, Stop::NonSpace);
        if q2 < s.len() {
            lemma_scan_bounds(s, q2 + 1, Stop::Quote);
        }
    }
}

/// Reads the items of a node from `s` into `acc`, up to and including the `}`
/// that closes it, or to the end of `s` where `top` holds. Gives the node and
/// what follows it.
pub open spec fn read_items(s: Seq<char>, top: bool, acc: Tree) -> Result<(Tree, Seq<char>), Error>
    decreases s.len(),
{
    if s.len() == 0 {
        if top {
            Ok((acc, s))
        } else {
            Err(Error::UnexpectedEndOfInput)
        }
    } else if is_ws(s[0]) {
        read_items(s.skip(1), top, acc)
    } else if s[0] == '"' {
        proof {
            lemma_read_pair(s);
        }
        match read_pair(s) {
            Ok((k, v, n)) => read_items(s.skip(n), top, add_value(acc, k, v)),
            Err(e) => Err(e),
        }
    } else if is_letter(s[0]) {
        let b = scan(s, 1, Stop::Char('{'));
        let e = trim_end(s, b);
        proof {
            lemma_scan_bounds(s, 1, Stop::Char('{'));
        }
        if b >= s.len() {
            Err(Error::UnexpectedEndOfInput)
        } else {
            match read_items(s.skip(b + 1), false, empty_tree()) {
                Ok((child, rest)) => {
                    if rest.len() < s.len() {
                        read_items(rest, top, add_child(acc, s.subrange(0, e), child))
                    } else {
                        Err(Error::UnexpectedEndOfInput)
                    }
                },
                Err(e) => Err(e),
            }
        }
    } else if s[0] == '}' {
        Ok((acc, s.skip(1)))
    } else {
        Err(Error::UnexpectedToken)
    }
}

/// The tree that the text `s` holds, or why it holds none.
pub open spec fn parse_text(s: Seq<char>) -> Result<Tree, Error> {
    match read_items(s, true, empty_tree()) {
        Ok((t, rest)) => if rest.len() == 0 {
            Ok(t)
        } else {
            Err(Error::TrailingInput)
        },
        Err(e) => Err(e),
    }
}

/// The line that `to_text` writes for the value `v` of key `k`.
pub open spec fn pair_line(k: Seq<char>, v: Seq<char>, ind: nat) -> Seq<char> {
    tabs(ind) + seq!['"'] + k + seq!['"', ' ', '"'] + v + seq!['"'] + crlf()
}

pub open spec fn values_text(k: Seq<char>, vs: Seq<Seq<char>>, ind: nat) -> Seq<char>
    decreases vs.len(),
{
    if vs.len() == 0 {
        Seq::empty()
    } else {
        values_text(k, vs.drop_last(), ind) + pair_line(k, vs.last(), ind)
    }
}

pub open spec fn pairs_text(ps: Seq<(Seq<char>, Seq<Seq<char>>)>, ind: nat) -> Seq<char>
    decreases ps.len(),
{
    if ps.len() == 0 {
        Seq::empty()
    } else {
        pairs_text(ps.drop_last(), ind) + values_text(ps.last().0, ps.last().1, ind)
    }
}

pub open spec fn block_open(name: Seq<char>, ind: nat) -> Seq<char> {
    tabs(ind) + name + crlf() + tabs(ind) + seq!['{'] + crlf()
}

pub open spec fn block_close(ind: nat) -> Seq<char> {
    tabs(ind) + seq!['}'] + crlf()
}

/// The text of `t` at indentation `ind`: every pair, then every block.
pub open spec fn tree_text(t: Tree, ind: nat) -> Seq<char>
    decreases t, 2int, 0int,
{
    pairs_text(t.pairs, ind) + blocks_text(t, t.blocks.len() as int, ind)
}

/// The text of the first `n` block entries of `t`.
pub open spec fn blocks_text(t: Tree, n: int, ind: nat) -> Seq<char>
    decreases t, 1int, n,
{
    if n <= 0 || n > t.blocks.len() {
        Seq::empty()
    } else {
        blocks_text(t, n - 1, ind) + group_text(t, n - 1, t.blocks[n - 1].1.len() as int, ind)
    }
}

/// The text of the first `n` children of block entry `i` of `t`.
pub open spec fn group_text(t: Tree, i: int, n: int, ind: nat) -> Seq<char>
    decreases t, 0int, n,
{
    if n <= 0 || i < 0 || i >= t.blocks.len() || n > t.blocks[i].1.len() {
        Seq::empty()
    } else {
        group_text(t, i, n - 1, ind) + block_open(t.blocks[i].0, ind) + tree_text(
            t.blocks[i].1[n - 1],
            ind + 1,
        ) + block_close(ind)
    }
}

/// Every node of `t` lies fewer than `d + 1` levels down.
pub open spec fn within_depth(t: Tree, d: int) -> bool
    decreases t,
{
    forall|i: int, j: int|
        0 <= i < t.blocks.len() && 0 <= j < t.blocks[i].1.len() ==> d >= 1 && within_depth(
            #[trigger] t.blocks[i].1[j],
            d - 1,
        )
}

impl GenericNode {
    /// The index of the entry of `key`, or the number of entries when there is none.
    fn find_key(&self, key: &String) -> (r: usize)
        ensures
            r == find_entry(self@.pairs, key@, 0),
    {
        let ghost ps = self@.pairs;
        let mut i: usize = 0;
        while i < self.key_value_pairs.len()
            invariant
                ps == self@.pairs,
                i <= self.key_value_pairs@.len(),
                find_entry(ps, key@, 0) == find_entry(ps, key@, i as int),
            decreases self.key_value_pairs@.len() - i,
        {
            if self.key_value_pairs[i].0 == *key {
                return i;
            }
            i = i + 1;
        }
        i
    }

    /// The index of the entry of block name `name`, or the number of entries
    /// when there is none.
    fn find_block(&self, name: &String) -> (r: usize)
        ensures
            r == find_entry(self@.blocks, name@, 0),
    {
        proof {
            lemma_tree_of(*self);
        }
        let ghost bs = self@.blocks;
        let mut i: usize = 0;
        while i < self.children_nodes.len()
            invariant
                bs == self@.blocks,
                bs == blocks_view(self.children_nodes@),
                i <= self.children_nodes@.len(),
                find_entry(bs, name@, 0) == find_entry(bs, name@, i as int),
            decreases self.children_nodes@.len() - i,
        {
            if self.children_nodes[i].0 == *name {
                return i;
            }
            i = i + 1;
        }
        i
    }

    /// Appends `value` to the values of `key`.
    fn push_value(&mut self, key: String, value: String)
        ensures
            final(self)@ == add_value(old(self)@, key@, value@),
    {
        proof {
            lemma_tree_of(*self);
        }
        let i = self.find_key(&key);
        proof {
            lemma_find_entry(old(self)@.pairs, key@, 0);
        }
        if i < self.key_value_pairs.len() {
            let ghost before = self.key_value_pairs@;
            let (k, mut values) = self.key_value_pairs.remove(i);
            let ghost vs = values@;
            values.push(value);
            self.key_value_pairs.insert(i, (k, values));
            proof {
                assert(self.key_value_pairs@ =~= before.update(i as int, (k, values)));
                assert(strings_view(values) =~= strings_view(before[i as int].1).push(value@));
                let want = add_value(old(self)@, key@, value@).pairs;
                let got = pairs_view(self.key_value_pairs@);
                assert(k@ == key@);
                assert forall|j: int| 0 <= j < want.len() implies got[j] == want[j] by {
                    if j == i {
                        assert(got[j] == (k@, strings_view(values)));
                    }
                }
                assert(got =~= want);
            }
        } else {
            let mut values: Vec<String> = Vec::new();
            values.push(value);
            self.key_value_pairs.push((key, values));
            proof {
                assert(strings_view(values) =~= seq![value@]);
                assert(pairs_view(self.key_value_pairs@) =~= add_value(old(self)@, key@, value@).pairs);
            }
        }
        proof {
            lemma_tree_of(*self);
            assert(self@.pairs =~= add_value(old(self)@, key@, value@).pairs);
        }
    }

    /// Appends `child` to the children named `name`.
    fn push_child(&mut self, name: String, child: GenericNode)
        ensures
            final(self)@ == add_child(old(self)@, name@, child@),
    {
        proof {
            lemma_tree_of(*self);
        }
        let i = self.find_block(&name);
        proof {
            lemma_find_entry(old(self)@.blocks, name@, 0);
        }
        if i < self.children_nodes.len() {
            let ghost before = self.children_nodes@;
            let (k, mut nodes) = self.children_nodes.remove(i);
            nodes.push(child);
            self.children_nodes.insert(i, (k, nodes));
            proof {
                assert(self.children_nodes@ =~= before.update(i as int, (k, nodes)));
                assert(trees_view(nodes@) =~= trees_view(before[i as int].1@).push(child@));
            }
        } else {
            let mut nodes: Vec<GenericNode> = Vec::new();
            nodes.push(child);
            self.children_nodes.push((name, nodes));
        }
        proof {
            lemma_tree_of(*self);
            let want = add_child(old(self)@, name@, child@).blocks;
            assert forall|j: int| 0 <= j < want.len() implies self@.blocks[j] == want[j] by {
                assert(self@.blocks[j].1 =~= want[j].1);
            }
            assert(self@.blocks =~= want);
        }
    }

    /// Removes `key` with its values, giving the last of them.
    pub fn take_value(&mut self, key: &str) -> (r: Option<String>)
        ensures
            match take_last_value(old(self)@, key@) {
                Some((v, t)) => r matches Some(s) && s@ == v && final(self)@ == t,
                None => r is None,
            },
    {
        proof {
            lemma_tree_of(*self);
            lemma_find_entry(self@.pairs, key@, 0);
        }
        let i = self.find_key(&key.to_owned());
        if i < self.key_value_pairs.len() {
            if self.key_value_pairs[i].1.len() == 0 {
                return None;
            }
            let ghost before = self.key_value_pairs@;
            let (_, mut values) = self.key_value_pairs.remove(i);
            proof {
                lemma_tree_of(*self);
                assert(self@.pairs =~= pairs_view(before).remove(i as int));
            }
            values.pop()
        } else {
            None
        }
    }

    /// Removes the children named `name`, giving them.
    pub fn take_children(&mut self, name: &str) -> (r: Option<Vec<GenericNode>>)
        ensures
            match take_blocks(old(self)@, name@) {
                Some((cs, t)) => r matches Some(v) && trees_view(v@) == cs && final(self)@ == t,
                None => r is None,
            },
    {
        proof {
            lemma_tree_of(*self);
            lemma_find_entry(self@.blocks, name@, 0);
        }
        let i = self.find_block(&name.to_owned());
        if i < self.children_nodes.len() {
            let ghost before = self.children_nodes@;
            let (_, nodes) = self.children_nodes.remove(i);
            proof {
                lemma_tree_of(*self);
                assert(self@.blocks =~= blocks_view(before).remove(i as int));
            }
            Some(nodes)
        } else {
            None
        }
    }

    /// A copy of this node and everything under it.
    pub fn clone_node(&self) -> (r: GenericNode)
        ensures
            r@ == self@,
        decreases self,
    {
        proof {
            lemma_tree_of(*self);
        }
        let mut pairs: Vec<(String, Vec<String>)> = Vec::new();
        let mut i: usize = 0;
        while i < self.key_value_pairs.len()
            invariant
                i <= self.key_value_pairs@.len(),
                pairs_view(pairs@) == pairs_view(self.key_value_pairs@.take(i as int)),
                pairs@.len() == i,
            decreases self.key_value_pairs@.len() - i,
        {
            let values = &self.key_value_pairs[i].1;
            let mut copy: Vec<String> = Vec::new();
            let mut j: usize = 0;
            while j < values.len()
                invariant
                    j <= values@.len(),
                    i < self.key_value_pairs@.len(),
                    *values == self.key_value_pairs@[i as int].1,
                    strings_view(copy) == strings_view(*values).take(j as int),
                    copy@.len() == j,
                decreases values@.len() - j,
            {
                let ghost old_copy = copy@;
                let v = values[j].clone();
                copy.push(v);
                proof {
                    assert forall|k: int| 0 <= k <= j implies strings_view(copy)[k] == strings_view(
                        *values,
                    ).take(j + 1)[k] by {
                        if k < j {
                            assert(copy@[k] == old_copy[k]);
                            assert(strings_view(copy)[k] == old_copy[k]@);
                        }
                    }
                }
                j = j + 1;
                assert(strings_view(copy) =~= strings_view(*values).take(j as int));
            }
            assert(strings_view(copy) =~= strings_view(*values));
            let ghost old_pairs = pairs@;
            pairs.push((self.key_value_pairs[i].0.clone(), copy));
            proof {
                let want = pairs_view(self.key_value_pairs@.take(i + 1));
                assert forall|k: int| 0 <= k <= i implies pairs_view(pairs@)[k] == want[k] by {
                    if k < i {
                        assert(pairs@[k] == old_pairs[k]);
                        assert(pairs_view(old_pairs)[k] == pairs_view(self.key_value_pairs@.take(i as int))[k]);
                    }
                }
            }
            i = i + 1;
            assert(pairs_view(pairs@) =~= pairs_view(self.key_value_pairs@.take(i as int)));
        }
        assert(self.key_value_pairs@.take(i as int) =~= self.key_value_pairs@);
        let mut blocks: Vec<(String, Vec<GenericNode>)> = Vec::new();
        let mut i: usize = 0;
        while i < self.children_nodes.len()
            invariant
                i <= self.children_nodes@.len(),
                blocks_view(blocks@) == blocks_view(self.children_nodes@.take(i as int)),
                blocks@.len() == i,
            decreases self.children_nodes@.len() - i,
        {
            let nodes = &self.children_nodes[i].1;
            let mut copy: Vec<GenericNode> = Vec::new();
            let ghost kids = nodes@;
            let mut j: usize = 0;
            while j < nodes.len()
                invariant
                    j <= nodes@.len(),
                    i < self.children_nodes@.len(),
                    *nodes == self.children_nodes@[i as int].1,
                    trees_view(copy@) == trees_view(nodes@).take(j as int),
                    copy@.len() == j,
                decreases nodes@.len() - j,
            {
                let ghost old_copy = copy@;
                let c = nodes[j].clone_node();
                copy.push(c);
                proof {
                    assert forall|k: int| 0 <= k <= j implies trees_view(copy@)[k] == trees_view(
                        nodes@,
                    ).take(j + 1)[k] by {
                        if k < j {
                            assert(copy@[k] == old_copy[k]);
                            assert(trees_view(old_copy)[k] == tree_of(old_copy[k]));
                        }
                    }
                }
                j = j + 1;
                assert(trees_view(copy@) =~= trees_view(nodes@).take(j as int));
            }
            assert(trees_view(copy@) =~= trees_view(nodes@));
            let ghost old_blocks = blocks@;
            blocks.push((self.children_nodes[i].0.clone(), copy));
            proof {
                let want = blocks_view(self.children_nodes@.take(i + 1));
                assert forall|k: int| 0 <= k <= i implies blocks_view(blocks@)[k] == want[k] by {
                    if k < i {
                        assert(blocks@[k] == old_blocks[k]);
                        assert(blocks_view(old_blocks)[k] == blocks_view(self.children_nodes@.take(i as int))[k]);
                    }
                }
            }
            i = i + 1;
            assert(blocks_view(blocks@) =~= blocks_view(self.children_nodes@.take(i as int)));
        }
        assert(self.children_nodes@.take(i as int) =~= self.children_nodes@);
        let r = GenericNode { key_value_pairs: pairs, children_nodes: blocks };
        proof {
            lemma_tree_of(r);
        }
        r
    }

    /// The first value of `key`, where it has one.
    pub fn find_value(&self, key: &str) -> (r: Option<&String>)
        ensures
            match first_value(self@, key@) {
                Some(v) => r matches Some(s) && s@ == v,
                None => r is None,
            },
    {
        proof {
            lemma_tree_of(*self);
        }
        let i = self.find_key(&key.to_owned());
        if i < self.key_value_pairs.len() && self.key_value_pairs[i].1.len() > 0 {
            Some(&self.key_value_pairs[i].1[0])
        } else {
            None
        }
    }

    /// The first value of `key`.
    pub fn get_value(&self, key: &str) -> (r: &String)
        requires
            find_entry(self@.pairs, key@, 0) < self@.pairs.len(),
            self@.pairs[find_entry(self@.pairs, key@, 0)].1.len() > 0,
        ensures
            r@ == self@.pairs[find_entry(self@.pairs, key@, 0)].1[0],
    {
        let key = key.to_owned();
        let i = self.find_key(&key);
        &self.key_value_pairs[i].1[0]
    }

    /// Makes `value` the one value of `key`.
    pub fn set_value(&mut self, key: &str, value: &str)
        ensures
            final(self)@ == (Tree {
                pairs: replace_entry(old(self)@.pairs, key@, seq![value@]),
                ..old(self)@
            }),
    {
        proof {
            lemma_tree_of(*self);
        }
        let i = self.find_key(&key.to_owned());
        let mut values: Vec<String> = Vec::new();
        values.push(value.to_owned());
        if i < self.key_value_pairs.len() {
            self.key_value_pairs.remove(i);
            self.key_value_pairs.insert(i, (key.to_owned(), values));
        } else {
            self.key_value_pairs.push((key.to_owned(), values));
        }
        proof {
            lemma_tree_of(*self);
            assert(strings_view(values) =~= seq![value@]);
            assert(self@.pairs =~= replace_entry(old(self)@.pairs, key@, seq![value@]));
        }
    }

    /// Makes `children` the children named `name`.
    pub fn set_children(&mut self, name: &str, children: Vec<GenericNode>)
        ensures
            final(self)@ == (Tree {
                blocks: replace_entry(old(self)@.blocks, name@, trees_view(children@)),
                ..old(self)@
            }),
    {
        proof {
            lemma_tree_of(*self);
        }
        let ghost kids = children@;
        let i = self.find_block(&name.to_owned());
        if i < self.children_nodes.len() {
            self.children_nodes.remove(i);
            self.children_nodes.insert(i, (name.to_owned(), children));
        } else {
            self.children_nodes.push((name.to_owned(), children));
        }
        proof {
            lemma_tree_of(*self);
            let want = replace_entry(old(self)@.blocks, name@, trees_view(kids));
            assert forall|j: int| 0 <= j < want.len() implies self@.blocks[j] == want[j] by {
                assert(self@.blocks[j].1 =~= want[j].1);
            }
            assert(self@.blocks =~= want);
        }
    }

    /// Makes `child` the one child named `name`.
    pub fn set_child(&mut self, name: &str, child: GenericNode)
        ensures
            final(self)@ == (Tree {
                blocks: replace_entry(old(self)@.blocks, name@, seq![child@]),
                ..old(self)@
            }),
    {
        let mut children: Vec<GenericNode> = Vec::new();
        children.push(child);
        assert(trees_view(children@) =~= seq![child@]);
        self.set_children(name, children);
    }

    /// Reads a document: its top-level pairs and blocks, and nothing after
    /// them but what the top level's closing brace leaves.
    pub fn parse(input: &str) -> (r: Result<GenericNode, Error>)
        ensures
            match parse_text(input@) {
                Ok(t) => r matches Ok(n) && n@ == t,
                Err(e) => r == Err::<GenericNode, Error>(e),
            },
    {
        let chars = chars_of(input);
        assert(chars@.skip(0) =~= input@);
        match read_tree(&chars, 0, true) {
            Ok((node, pos)) => {
                if pos == chars.len() {
                    Ok(node)
                } else {
                    Err(Error::TrailingInput)
                }
            },
            Err(e) => Err(e),
        }
    }

    pub fn new() -> (r: GenericNode)
        ensures
            r@ == empty_tree(),
    {
        let r = GenericNode { key_value_pairs: Vec::new(), children_nodes: Vec::new() };
        assert(r@.pairs =~= Seq::empty());
        assert(r@.blocks =~= Seq::empty());
        r
    }

    /// The text of this node, each line indented by `indent_level` tabs more
    /// than the format's nesting asks for.
    pub fn to_text(&self, indent_level: u32) -> (r: String)
        requires
            within_depth(self@, u32::MAX - indent_level),
        ensures
            r@ == tree_text(self@, indent_level as nat),
        decreases self,
    {
        let ghost t = self@;
        let ghost ind = indent_level as nat;
        let mut out = Serializer::new(indent_level);
        let mut i: usize = 0;
        while i < self.key_value_pairs.len()
            invariant
                t == self@,
                i <= self.key_value_pairs@.len(),
                out.indent() == ind,
                ind == indent_level as nat,
                out.text() == pairs_text(t.pairs.take(i as int), ind),
            decreases self.key_value_pairs@.len() - i,
        {
            let key = &self.key_value_pairs[i].0;
            let values = &self.key_value_pairs[i].1;
            let ghost before = out.text();
            let mut j: usize = 0;
            while j < values.len()
                invariant
                    t == self@,
                    i < self.key_value_pairs@.len(),
                    *key == self.key_value_pairs@[i as int].0,
                    *values == self.key_value_pairs@[i as int].1,
                    j <= values@.len(),
                    out.indent() == ind,
                    ind == indent_level as nat,
                ind == indent_level as nat,
                    out.text() == before + values_text(key@, strings_view(*values).take(j as int), ind),
                decreases values@.len() - j,
            {
                let ghost mid = out.text();
                out.pad();
                out.write("\"");
                out.write(key.as_str());
                out.write("\" \"");
                out.write(values[j].as_str());
                out.write("\"");
                out.write("\r\n");
                proof {
                    reveal_strlit("\"");
                    reveal_strlit("\" \"");
                    reveal_strlit("\r\n");
                    let vs = strings_view(*values);
                    assert(vs.take(j + 1).drop_last() =~= vs.take(j as int));
                    assert(out.text() =~= mid + pair_line(key@, vs[j as int], ind));
                    assert(out.text() =~= before + values_text(key@, vs.take(j + 1), ind));
                }
                j = j + 1;
            }
            proof {
                assert(t.pairs.take(i + 1).drop_last() =~= t.pairs.take(i as int));
                assert(strings_view(*values).take(j as int) =~= strings_view(*values));
                assert(t.pairs[i as int] == (key@, strings_view(*values)));
            }
            i = i + 1;
        }
        proof {
            assert(t.pairs.take(i as int) =~= t.pairs);
        }
        let ghost ptext = out.text();
        let mut i: usize = 0;
        while i < self.children_nodes.len()
            invariant
                t == self@,
                within_depth(t, u32::MAX - indent_level),
                i <= self.children_nodes@.len(),
                out.indent() == ind,
                ind == indent_level as nat,
                ptext == pairs_text(t.pairs, ind),
                out.text() == ptext + blocks_text(t, i as int, ind),
            decreases self.children_nodes@.len() - i,
        {
            let name = &self.children_nodes[i].0;
            let nodes = &self.children_nodes[i].1;
            let ghost before = out.text();
            let ghost kids = nodes@;
            let mut j: usize = 0;
            while j < nodes.len()
                invariant
                    t == self@,
                    within_depth(t, u32::MAX - indent_level),
                    i < self.children_nodes@.len(),
                    *name == self.children_nodes@[i as int].0,
                    *nodes == self.children_nodes@[i as int].1,
                    j <= nodes@.len(),
                    out.indent() == ind,
                    ind == indent_level as nat,
                ind == indent_level as nat,
                    before == ptext + blocks_text(t, i as int, ind),
                    out.text() == before + group_text(t, i as int, j as int, ind),
                decreases nodes@.len() - j,
            {
                let ghost mid = out.text();
                let child = &nodes[j];
                assert(t.blocks[i as int].1[j as int] == child@);
                assert(indent_level < u32::MAX);
                proof {
                    reveal_strlit("{");
                    reveal_strlit("}");
                }
                out.add_padded_line(name.as_str());
                let ghost m1 = out.text();
                assert(m1 == mid + tabs(ind) + name@ + crlf());
                out.add_padded_line("{");
                let ghost m2 = out.text();
                assert(m2 == m1 + tabs(ind) + seq!['{'] + crlf());
                let inner = child.to_text(indent_level + 1);
                out.write(inner.as_str());
                let ghost m3 = out.text();
                assert(m3 == m2 + tree_text(child@, ind + 1));
                out.add_padded_line("}");
                proof {
                    assert(out.text() == m3 + tabs(ind) + seq!['}'] + crlf());
                    assert(out.text() =~= mid + block_open(name@, ind) + tree_text(child@, ind + 1)
                        + block_close(ind));
                }
                j = j + 1;
            }
            i = i + 1;
        }
        out.finish()
    }

    /// The text of this node at the top level of a document.
    pub fn to_string(&self) -> (r: String)
        requires
            within_depth(self@, u32::MAX as int),
        ensures
            r@ == tree_text(self@, 0),
    {
        self.to_text(0)
    }
}

/// Where the block name that starts at `pos` and runs up to `b` ends once its
/// trailing whitespace is removed.
fn name_end(input: &Vec<char>, pos: usize, b: usize) -> (e: usize)
    requires
        pos < b <= input@.len(),
        !is_ws(input@[pos as int]),
    ensures
        pos < e <= b,
        e - pos == trim_end(input@.skip(pos as int), b - pos),
{
    let ghost s = input@.skip(pos as int);
    let mut k: usize = b;
    while k > pos + 1 && is_ws_char(input[k - 1])
        invariant
            pos < k <= b <= input@.len(),
            s == input@.skip(pos as int),
            trim_end(s, b - pos) == trim_end(s, k - pos),
        decreases k,
    {
        assert(s[k - pos - 1] == input@[k - 1]);
        k = k - 1;
    }
    assert(s[k - pos - 1] == input@[k - 1]);
    k
}

/// Reads the items of one node from `input`, starting at `start`. Gives the
/// node and the position after it.
fn read_tree(input: &Vec<char>, start: usize, top: bool) -> (r: Result<(GenericNode, usize), Error>)
    requires
        start <= input@.len(),
    ensures
        match read_items(input@.skip(start as int), top, empty_tree()) {
            Ok((t, rest)) => r matches Ok((n, p)) && n@ == t && p <= input@.len() && input@.skip(
                p as int,
            ) == rest,
            Err(e) => r == Err::<(GenericNode, usize), Error>(e),
        },
    decreases input@.len() - start,
{
    let ghost s0 = input@.skip(start as int);
    let mut node = GenericNode::new();
    let mut pos: usize = start;
    loop
        invariant
            start <= pos <= input@.len(),
            s0 == input@.skip(start as int),
            read_items(s0, top, empty_tree()) == read_items(input@.skip(pos as int), top, node@),
        decreases input@.len() - pos,
    {
        let ghost s = input@.skip(pos as int);
        if pos == input.len() {
            assert(s.len() == 0);
            if top {
                return Ok((node, pos));
            } else {
                return Err(Error::UnexpectedEndOfInput);
            }
        }
        let c = input[pos];
        assert(s[0] == c);
        if is_ws_char(c) {
            assert(s.skip(1) =~= input@.skip(pos + 1));
            pos = pos + 1;
        } else if c == '"' {
            let q1 = scan_chars(input, pos + 1, Stop::Quote);
            proof {
                lemma_scan_skip(input@, pos as int, 1, Stop::Quote);
                lemma_scan_bounds(input@, pos + 1, Stop::Quote);
            }
            if q1 == input.len() {
                return Err(Error::UnexpectedEndOfInput);
            }
            let q2 = scan_chars(input, q1 + 1, Stop::NonSpace);
            proof {
                lemma_scan_skip(input@, pos as int, q1 - pos + 1, Stop::NonSpace);
                lemma_scan_bounds(input@, q1 + 1, Stop::NonSpace);
            }
            if q2 == input.len() {
                return Err(Error::UnexpectedEndOfInput);
            }
            assert(s[q2 - pos] == input@[q2 as int]);
            if input[q2] != '"' {
                return Err(Error::UnexpectedToken);
            }
            let q3 = scan_chars(input, q2 + 1, Stop::Quote);
            proof {
                lemma_scan_skip(input@, pos as int, q2 - pos + 1, Stop::Quote);
                lemma_scan_bounds(input@, q2 + 1, Stop::Quote);
            }
            if q3 == input.len() {
                return Err(Error::UnexpectedEndOfInput);
            }
            let key = substring(input, pos + 1, q1);
            let value = substring(input, q2 + 1, q3);
            proof {
                assert(key@ =~= s.subrange(1, q1 - pos));
                assert(value@ =~= s.subrange(q2 - pos + 1, q3 - pos));
                assert(s.skip(q3 - pos + 1) =~= input@.skip(q3 + 1));
            }
            node.push_value(key, value);
            pos = q3 + 1;
        } else if is_letter_char(c) {
            let b = scan_chars(input, pos + 1, Stop::Char('{'));
            proof {
                lemma_scan_skip(input@, pos as int, 1, Stop::Char('{'));
                lemma_scan_bounds(input@, pos + 1, Stop::Char('{'));
            }
            if b == input.len() {
                return Err(Error::UnexpectedEndOfInput);
            }
            let e = name_end(input, pos, b);
            let name = substring(input, pos, e);
            assert(name@ =~= s.subrange(0, e - pos));
            assert(s.skip(b - pos + 1) =~= input@.skip(b + 1));
            match read_tree(input, b + 1, false) {
                Ok((child, p)) => {
                    if p > pos {
                        node.push_child(name, child);
                        pos = p;
                    } else {
                        return Err(Error::UnexpectedEndOfInput);
                    }
                },
                Err(err) => {
                    return Err(err);
                },
            }
        } else if c == '}' {
            assert(s.skip(1) =~= input@.skip(pos + 1));
            return Ok((node, pos + 1));
        } else {
            return Err(Error::UnexpectedToken);
        }
    }
}

} // verus!
