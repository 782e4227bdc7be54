//! Flat `KEY=VALUE` lines back to nested YAML: keys are split on `"__"`
//! into a tree of groups, and the tree is written out once the input ends.
use vstd::prelude::*;
use crate::text::{
    ascii_lower, chars_with_len, decimal, extend, find_char, find_char_index, index_key,
    lemma_decimal, lemma_find_char, lines, seq_eq, split_lines, string_from_chars, subvec,
    terminated_text, to_decimal, trim, trim_bounds,
};

verus! {

/// A value of the tree: a scalar, or a group of keyed children in the
/// order their keys were first seen.
pub enum Tree {
    Leaf(Seq<char>),
    Branch(Seq<(Seq<char>, Tree)>),
}

/// First index at or after `i` whose key is `k`.
pub open spec fn key_index_from(c: Seq<(Seq<char>, Tree)>, k: Seq<char>, i: int) -> Option<int>
    decreases c.len() - i,
{
    if i < 0 || i >= c.len() {
        None
    } else if c[i].0 == k {
        Some(i)
    } else {
        key_index_from(c, k, i + 1)
    }
}

/// `insert`: puts `value` at `path` under the group `c`, creating missing
/// groups; a scalar met where a group is needed, or a group met where the
/// scalar goes, is replaced.
pub open spec fn tree_insert(c: Seq<(Seq<char>, Tree)>, path: Seq<Seq<char>>, value: Seq<char>) -> Seq<
    (Seq<char>, Tree),
>
    decreases path.len(),
{
    if path.len() == 0 {
        c
    } else {
        let head = path[0];
        let rest = path.drop_first();
        match key_index_from(c, head, 0) {
            Some(i) => if rest.len() == 0 {
                c.update(i, (head, Tree::Leaf(value)))
            } else {
                match c[i].1 {
                    Tree::Branch(sub) => c.update(i, (head, Tree::Branch(tree_insert(sub, rest, value)))),
                    Tree::Leaf(_) => c.update(i, (head, Tree::Branch(tree_insert(Seq::empty(), rest, value)))),
                }
            },
            None => if rest.len() == 0 {
                c.push((head, Tree::Leaf(value)))
            } else {
                c.push((head, Tree::Branch(tree_insert(Seq::empty(), rest, value))))
            },
        }
    }
}

/// `is_sequence`: the keys are exactly the decimal strings of
/// `0 .. n-1`, each once, in any order.
pub open spec fn is_seq_group(c: Seq<(Seq<char>, Tree)>) -> bool {
    &&& c.len() > 0
    &&& forall|j: int| 0 <= j < c.len() ==> is_index_key(#[trigger] c[j].0, c.len())
    &&& forall|j1: int, j2: int| 0 <= j1 < j2 < c.len() ==> #[trigger] c[j1].0 != #[trigger] c[j2].0
    &&& forall|i: nat| i < c.len() ==> has_key(c, #[trigger] decimal(i))
}

/// `k` is the decimal form of some index below `n`.
pub open spec fn is_index_key(k: Seq<char>, n: nat) -> bool {
    exists|i: nat| i < n && #[trigger] decimal(i) == k
}

pub open spec fn has_key(c: Seq<(Seq<char>, Tree)>, k: Seq<char>) -> bool {
    exists|j: int| 0 <= j < c.len() && #[trigger] c[j].0 == k
}

/// `depth` levels of two-space indentation.
pub open spec fn indent(depth: nat) -> Seq<char> {
    Seq::new(2 * depth, |i: int| ' ')
}

/// `s` without the prefix `p`, or `s` itself when it does not start with `p`.
pub open spec fn strip_prefix_or_keep(s: Seq<char>, p: Seq<char>) -> Seq<char> {
    if p.len() <= s.len() && s.take(p.len() as int) == p {
        s.skip(p.len() as int)
    } else {
        s
    }
}

/// `write_node`: a group at `depth`, as a sequence when its keys are
/// `0 .. n-1`, as a mapping otherwise.
pub open spec fn render_group(c: Seq<(Seq<char>, Tree)>, depth: nat) -> Seq<char>
    decreases c, c.len() + 1,
{
    if is_seq_group(c) {
        render_seq_from(c, depth, 0)
    } else {
        render_map_from(c, depth, 0)
    }
}

/// The mapping entries `c[i..]`: `key: value` for a scalar, `key:` and the
/// group one level deeper for a group.
pub open spec fn render_map_from(c: Seq<(Seq<char>, Tree)>, depth: nat, i: int) -> Seq<char>
    decreases c, c.len() - i,
{
    if i < 0 || i >= c.len() {
        Seq::empty()
    } else {
        let rest = render_map_from(c, depth, i + 1);
        match c[i].1 {
            Tree::Leaf(v) => indent(depth) + c[i].0 + seq![':', ' '] + v + seq!['\n'] + rest,
            Tree::Branch(sub) => {
                proof {
                    assert(decreases_to!(c => c[i]));
                }
                indent(depth) + c[i].0 + seq![':', '\n'] + render_group(sub, depth + 1) + rest
            },
        }
    }
}

/// `write_sequence`: the items `i ..` of a sequence group, in index order.
pub open spec fn render_seq_from(c: Seq<(Seq<char>, Tree)>, depth: nat, i: int) -> Seq<char>
    decreases c, c.len() - i,
{
    if i < 0 || i >= c.len() {
        Seq::empty()
    } else {
        let rest = render_seq_from(c, depth, i + 1);
        match key_index_from(c, decimal(i as nat), 0) {
            Some(j) => if 0 <= j < c.len() {
                match c[j].1 {
                    Tree::Leaf(v) => indent(depth) + seq!['-', ' '] + v + seq!['\n'] + rest,
                    Tree::Branch(sub) => {
                        proof {
                            assert(decreases_to!(c => c[j]));
                        }
                        render_item(sub, depth) + rest
                    },
                }
            } else {
                rest
            },
            None => rest,
        }
    }
}

/// `write_sequence_item`: a group as one sequence item; it is written one
/// level deeper and the indentation of its first line becomes `"- "`.
pub open spec fn render_item(sub: Seq<(Seq<char>, Tree)>, depth: nat) -> Seq<char>
    decreases sub, sub.len() + 2,
{
    let ls = lines(render_group(sub, depth + 1));
    if ls.len() == 0 {
        Seq::empty()
    } else {
        indent(depth) + seq!['-', ' '] + strip_prefix_or_keep(ls[0], indent(depth + 1)) + seq!['\n']
            + terminated_text(ls.drop_first())
    }
}

/// The key split at each `"__"`, left to right, after the partial segment
/// `cur`.
pub open spec fn split_dunder_from(s: Seq<char>, cur: Seq<char>) -> Seq<Seq<char>>
    decreases s.len(),
{
    if s.len() == 0 {
        seq![cur]
    } else if s.len() >= 2 && s[0] == '_' && s[1] == '_' {
        seq![cur] + split_dunder_from(s.skip(2), Seq::empty())
    } else {
        split_dunder_from(s.drop_first(), cur.push(s[0]))
    }
}

/// `key.split("__")`.
pub open spec fn split_dunder(s: Seq<char>) -> Seq<Seq<char>> {
    split_dunder_from(s, Seq::empty())
}

/// What `str::to_lowercase` returns for `s`.
pub uninterp spec fn lowercase(s: Seq<char>) -> Seq<char>;

pub open spec fn all_ascii(s: Seq<char>) -> bool {
    forall|i: int| 0 <= i < s.len() ==> (#[trigger] s[i] as u32) < 128
}

/// Calls `str::to_lowercase` (std). Claimed: the result is `lowercase` of
/// the argument, and, for an argument made only of ASCII characters, each
/// character mapped by `char::to_ascii_lowercase` (the Unicode lowercase
/// mapping of an ASCII character is its ASCII lowercase). Nothing is
/// claimed of the result for other characters.
#[verifier::external_body]
fn to_lowercase(s: &Vec<char>) -> (r: Vec<char>)
    ensures
        r@ == lowercase(s@),
        all_ascii(s@) ==> r@ == s@.map_values(|c: char| ascii_lower(c)),
{
    let text: String = s.iter().collect();
    text.to_lowercase().chars().collect()
}

/// What `str::to_lowercase` gives: for ASCII text, each character passed
/// through `char::to_ascii_lowercase`; otherwise `lowercase`.
pub open spec fn lowered(s: Seq<char>) -> Seq<char> {
    if all_ascii(s) {
        s.map_values(|c: char| ascii_lower(c))
    } else {
        lowercase(s)
    }
}

/// The path a key stands for: its `"__"`-separated segments, lower-cased.
pub open spec fn key_path(key: Seq<char>) -> Seq<Seq<char>> {
    split_dunder(key).map_values(|seg: Seq<char>| lowered(seg))
}

/// What one `KEY=VALUE` line does to the tree. Blank lines, `#` comments
/// and lines without `'='` change nothing.
pub open spec fn line_effect(c: Seq<(Seq<char>, Tree)>, line: Seq<char>) -> Seq<(Seq<char>, Tree)> {
    let t = trim(line);
    if t.len() == 0 || t[0] == '#' {
        c
    } else {
        match find_char(t, '=', 0) {
            Some(i) => tree_insert(c, key_path(t.take(i)), t.skip(i + 1)),
            None => c,
        }
    }
}

/// The tree after the lines `ls`, from an empty one.
pub open spec fn build_tree(ls: Seq<Seq<char>>) -> Seq<(Seq<char>, Tree)>
    decreases ls.len(),
{
    if ls.len() == 0 {
        Seq::empty()
    } else {
        line_effect(build_tree(ls.drop_last()), ls.last())
    }
}

/// The whole output for a whole input.
pub open spec fn expand_text(input: Seq<char>) -> Seq<char> {
    render_group(build_tree(lines(input)), 0)
}


/// `key_index_from` finds the first match.
pub proof fn lemma_key_index_from(c: Seq<(Seq<char>, Tree)>, k: Seq<char>, i: int)
    requires
        0 <= i,
    ensures
        key_index_from(c, k, i) matches Some(j) ==> i <= j < c.len() && c[j].0 == k && forall|t: int|
            i <= t < j ==> #[trigger] c[t].0 != k,
        key_index_from(c, k, i) is None ==> forall|t: int| i <= t < c.len() ==> #[trigger] c[t].0 != k,
    decreases c.len() - i,
{
    if i < c.len() && c[i].0 != k {
        lemma_key_index_from(c, k, i + 1);
    }
}

/// The scalar stored at `q`, if `q` leads to one.
pub open spec fn leaf_at(c: Seq<(Seq<char>, Tree)>, q: Seq<Seq<char>>) -> Option<Seq<char>>
    decreases q.len(),
{
    if q.len() == 0 {
        None
    } else {
        match key_index_from(c, q[0], 0) {
            Some(i) => if q.len() == 1 {
                match c[i].1 {
                    Tree::Leaf(v) => Some(v),
                    Tree::Branch(_) => None,
                }
            } else {
                match c[i].1 {
                    Tree::Branch(sub) => leaf_at(sub, q.drop_first()),
                    Tree::Leaf(_) => None,
                }
            },
            None => None,
        }
    }
}

pub open spec fn is_prefix(a: Seq<Seq<char>>, b: Seq<Seq<char>>) -> bool {
    a.len() <= b.len() && b.take(a.len() as int) == a
}

/// Replacing the child keyed `h` (or adding one after the others) leaves
/// where every other key is found, and what it holds.
proof fn lemma_key_index_other(
    c: Seq<(Seq<char>, Tree)>,
    c2: Seq<(Seq<char>, Tree)>,
    h: Seq<char>,
    k: Seq<char>,
)
    requires
        k != h,
        c2.len() >= c.len(),
        forall|t: int| 0 <= t < c.len() && c[t].0 != h ==> c2[t] == c[t],
        forall|t: int| 0 <= t < c2.len() && (t >= c.len() || c[t].0 == h) ==> c2[t].0 == h,
    ensures
        key_index_from(c2, k, 0) == key_index_from(c, k, 0),
        key_index_from(c, k, 0) matches Some(i) ==> c2[i] == c[i],
{
    lemma_key_index_from(c, k, 0);
    lemma_key_index_from(c2, k, 0);
    match key_index_from(c, k, 0) {
        Some(i) => {
            assert forall|t: int| 0 <= t < i implies #[trigger] c2[t].0 != k by {
                if c[t].0 == h {
                } else {
                    assert(c2[t] == c[t]);
                }
            }
            assert(c2[i] == c[i]);
            if key_index_from(c2, k, 0) != Some(i) {
                match key_index_from(c2, k, 0) {
                    Some(i2) => {
                        assert(i2 < i || i2 > i);
                    },
                    None => {
                        assert(c2[i].0 != k);
                    },
                }
            }
        },
        None => {
            match key_index_from(c2, k, 0) {
                Some(i2) => {
                    if i2 < c.len() && c[i2].0 != h {
                        assert(c2[i2] == c[i2]);
                    }
                },
                None => {},
            }
        },
    }
}

/// A later assignment wins: after inserting `value` at `p`, the path `p`
/// holds `value`; paths that `p` extends, or that extend `p`, hold no
/// scalar any more (a scalar addressed with a longer path, or a group
/// addressed as a scalar, is overwritten); every other path keeps what it
/// held.
pub proof fn lemma_insert_leaf_at(
    c: Seq<(Seq<char>, Tree)>,
    p: Seq<Seq<char>>,
    value: Seq<char>,
    q: Seq<Seq<char>>,
)
    requires
        p.len() > 0,
    ensures
        leaf_at(tree_insert(c, p, value), q) == if q == p {
            Some(value)
        } else if is_prefix(q, p) || is_prefix(p, q) {
            None
        } else {
            leaf_at(c, q)
        },
    decreases p.len(),
{
    let c2 = tree_insert(c, p, value);
    let h = p[0];
    let rest = p.drop_first();
    lemma_key_index_from(c, h, 0);
    if q.len() == 0 {
        assert(is_prefix(q, p)) by {
            assert(p.take(0) =~= q);
        }
        return;
    }
    let found = key_index_from(c, h, 0);
    let i2: int = match found {
        Some(i) => i,
        None => c.len() as int,
    };
    assert(c2.len() >= c.len());
    assert(c2[i2].0 == h);
    if q[0] != h {
        assert forall|t: int| 0 <= t < c.len() && c[t].0 != h implies c2[t] == c[t] by {}
        lemma_key_index_other(c, c2, h, q[0]);
        assert(!is_prefix(q, p)) by {
            if is_prefix(q, p) {
                assert(p.take(q.len() as int)[0] == p[0]);
            }
        }
        assert(!is_prefix(p, q)) by {
            if is_prefix(p, q) {
                assert(q.take(p.len() as int)[0] == q[0]);
            }
        }
        assert(q != p);
        return;
    }
    lemma_key_index_from(c2, h, 0);
    assert(key_index_from(c2, h, 0) == Some(i2)) by {
        if key_index_from(c2, h, 0) != Some(i2) {
            match key_index_from(c2, h, 0) {
                Some(j) => {
                    if j < i2 {
                        assert(c2[j] == c[j]);
                    }
                },
                None => {},
            }
        }
    }
    if p.len() == 1 {
        if q.len() == 1 {
            assert(q =~= p);
        } else {
            assert(is_prefix(p, q)) by {
                assert(q.take(1) =~= p);
            }
        }
        return;
    }
    let sub: Seq<(Seq<char>, Tree)> = match found {
        Some(i) => match c[i].1 {
            Tree::Branch(s) => s,
            Tree::Leaf(_) => Seq::empty(),
        },
        None => Seq::empty(),
    };
    assert(c2[i2].1 == Tree::Branch(tree_insert(sub, rest, value)));
    if q.len() == 1 {
        assert(is_prefix(q, p)) by {
            assert(p.take(1) =~= q);
        }
        return;
    }
    let qr = q.drop_first();
    lemma_insert_leaf_at(sub, rest, value, qr);
    assert(q == p <==> qr == rest) by {
        if qr == rest {
            assert forall|k: int| 0 <= k < q.len() implies q[k] == p[k] by {
                if k > 0 {
                    assert(q[k] == qr[k - 1]);
                    assert(p[k] == rest[k - 1]);
                }
            }
            assert(q =~= p);
        }
        if q == p {
            assert(qr =~= rest);
        }
    }
    assert(is_prefix(q, p) <==> is_prefix(qr, rest)) by {
        if is_prefix(q, p) {
            assert(rest.take(qr.len() as int) =~= p.take(q.len() as int).drop_first());
        }
        if is_prefix(qr, rest) {
            assert forall|k: int| 0 <= k < q.len() implies p.take(q.len() as int)[k] == q[k] by {
                if k > 0 {
                    assert(q[k] == qr[k - 1]);
                    assert(p[k] == rest[k - 1]);
                    assert(rest.take(qr.len() as int)[k - 1] == rest[k - 1]);
                }
            }
            assert(p.take(q.len() as int) =~= q);
        }
    }
    assert(is_prefix(p, q) <==> is_prefix(rest, qr)) by {
        if is_prefix(p, q) {
            assert(qr.take(rest.len() as int) =~= q.take(p.len() as int).drop_first());
        }
        if is_prefix(rest, qr) {
            assert forall|k: int| 0 <= k < p.len() implies q.take(p.len() as int)[k] == p[k] by {
                if k > 0 {
                    assert(q[k] == qr[k - 1]);
                    assert(p[k] == rest[k - 1]);
                    assert(qr.take(rest.len() as int)[k - 1] == qr[k - 1]);
                }
            }
            assert(q.take(p.len() as int) =~= p);
        }
    }
    match found {
        Some(i) => {},
        None => {},
    }
    assert(leaf_at(Seq::<(Seq<char>, Tree)>::empty(), qr) == None::<Seq<char>>);
}

/// In every group, no two children share a key.
pub open spec fn keys_unique(c: Seq<(Seq<char>, Tree)>) -> bool
    decreases c,
{
    &&& forall|a: int, b: int| 0 <= a < b < c.len() ==> #[trigger] c[a].0 != #[trigger] c[b].0
    &&& forall|a: int|
        0 <= a < c.len() ==> match #[trigger] c[a].1 {
            Tree::Branch(sub) => keys_unique(sub),
            Tree::Leaf(_) => true,
        }
}

/// The tree holds one entry per distinct key in each group: inserting
/// never duplicates a key.
pub proof fn lemma_insert_keys_unique(c: Seq<(Seq<char>, Tree)>, p: Seq<Seq<char>>, value: Seq<char>)
    requires
        keys_unique(c),
    ensures
        keys_unique(tree_insert(c, p, value)),
    decreases p.len(),
{
    if p.len() == 0 {
        return;
    }
    let h = p[0];
    let rest = p.drop_first();
    lemma_key_index_from(c, h, 0);
    let c2 = tree_insert(c, p, value);
    if rest.len() > 0 {
        match key_index_from(c, h, 0) {
            Some(i) => match c[i].1 {
                Tree::Branch(sub) => {
                    lemma_insert_keys_unique(sub, rest, value);
                },
                Tree::Leaf(_) => {
                    lemma_insert_keys_unique(Seq::empty(), rest, value);
                },
            },
            None => {
                lemma_insert_keys_unique(Seq::empty(), rest, value);
            },
        }
    }
    assert forall|a: int, b: int| 0 <= a < b < c2.len() implies #[trigger] c2[a].0 != #[trigger] c2[b].0 by {
        if b == c.len() {
            assert(c[a].0 != h);
        }
    }
    assert forall|a: int|
        0 <= a < c2.len() implies match #[trigger] c2[a].1 {
            Tree::Branch(sub) => keys_unique(sub),
            Tree::Leaf(_) => true,
        } by {
        if a < c.len() {
            if c2[a] != c[a] {
            } else {
                assert(match c[a].1 {
                    Tree::Branch(sub) => keys_unique(sub),
                    Tree::Leaf(_) => true,
                });
            }
        }
    }
}

/// No group anywhere in the tree is empty.
pub open spec fn groups_nonempty(c: Seq<(Seq<char>, Tree)>) -> bool
    decreases c,
{
    forall|a: int|
        0 <= a < c.len() ==> match #[trigger] c[a].1 {
            Tree::Branch(sub) => sub.len() > 0 && groups_nonempty(sub),
            Tree::Leaf(_) => true,
        }
}

/// Inserting never leaves an empty group behind: every group it creates
/// holds the new scalar's path, and no group loses a child. The group
/// inserted into holds at least one child afterwards.
pub proof fn lemma_insert_groups_nonempty(
    c: Seq<(Seq<char>, Tree)>,
    p: Seq<Seq<char>>,
    value: Seq<char>,
)
    requires
        groups_nonempty(c),
    ensures
        groups_nonempty(tree_insert(c, p, value)),
        tree_insert(c, p, value).len() >= c.len(),
        p.len() > 0 ==> tree_insert(c, p, value).len() > 0,
    decreases p.len(),
{
    if p.len() == 0 {
        return;
    }
    let h = p[0];
    let rest = p.drop_first();
    lemma_key_index_from(c, h, 0);
    let c2 = tree_insert(c, p, value);
    assert(groups_nonempty(Seq::<(Seq<char>, Tree)>::empty()));
    if rest.len() > 0 {
        match key_index_from(c, h, 0) {
            Some(i) => match c[i].1 {
                Tree::Branch(sub) => {
                    assert(match c[i].1 {
                        Tree::Branch(sub) => sub.len() > 0 && groups_nonempty(sub),
                        Tree::Leaf(_) => true,
                    });
                    lemma_insert_groups_nonempty(sub, rest, value);
                },
                Tree::Leaf(_) => {
                    lemma_insert_groups_nonempty(Seq::empty(), rest, value);
                },
            },
            None => {
                lemma_insert_groups_nonempty(Seq::empty(), rest, value);
            },
        }
    }
    assert forall|a: int|
        0 <= a < c2.len() implies match #[trigger] c2[a].1 {
            Tree::Branch(sub) => sub.len() > 0 && groups_nonempty(sub),
            Tree::Leaf(_) => true,
        } by {
        if a < c.len() {
            if c2[a] != c[a] {
            } else {
                assert(match c[a].1 {
                    Tree::Branch(sub) => sub.len() > 0 && groups_nonempty(sub),
                    Tree::Leaf(_) => true,
                });
            }
        }
    }
}

enum Node {
    Leaf(Vec<char>),
    Branch(Vec<(Vec<char>, Node)>),
}

spec fn node_view(n: Node) -> Tree
    decreases n,
{
    match n {
        Node::Leaf(v) => Tree::Leaf(v@),
        Node::Branch(c) => Tree::Branch(group_view(c@)),
    }
}

spec fn group_view(c: Seq<(Vec<char>, Node)>) -> Seq<(Seq<char>, Tree)>
    decreases c,
{
    if c.len() == 0 {
        Seq::empty()
    } else {
        group_view(c.drop_last()).push((c.last().0@, node_view(c.last().1)))
    }
}

proof fn lemma_group_view(c: Seq<(Vec<char>, Node)>)
    ensures
        group_view(c).len() == c.len(),
        forall|i: int| 0 <= i < c.len() ==> #[trigger] group_view(c)[i] == (c[i].0@, node_view(c[i].1)),
    decreases c.len(),
{
    if c.len() > 0 {
        lemma_group_view(c.drop_last());
        assert forall|i: int| 0 <= i < c.len() implies #[trigger] group_view(c)[i] == (c[i].0@, node_view(c[i].1)) by {
            if i < c.len() - 1 {
                assert(c.drop_last()[i] == c[i]);
            }
        }
    }
}

/// The groups and scalars read so far, in the order their keys first
/// appeared.
pub struct EnvTree {
    root: Vec<(Vec<char>, Node)>,
}

impl View for EnvTree {
    type V = Seq<(Seq<char>, Tree)>;

    closed spec fn view(&self) -> Seq<(Seq<char>, Tree)> {
        group_view(self.root@)
    }
}

fn copy_chars(v: &Vec<char>) -> (r: Vec<char>)
    ensures
        r@ == v@,
{
    let r = subvec(v, 0, v.len());
    assert(v@.subrange(0, v.len() as int) =~= v@);
    r
}

/// Index of the first child keyed `k`.
fn find_key(children: &Vec<(Vec<char>, Node)>, k: &Vec<char>) -> (r: Option<usize>)
    ensures
        r matches Some(i) ==> key_index_from(group_view(children@), k@, 0) == Some(i as int),
        r is None ==> key_index_from(group_view(children@), k@, 0) is None,
{
    proof {
        lemma_group_view(children@);
    }
    let ghost g = group_view(children@);
    let mut i: usize = 0;
    while i < children.len()
        invariant
            i <= children.len(),
            g == group_view(children@),
            g.len() == children@.len(),
            key_index_from(g, k@, 0) == key_index_from(g, k@, i as int),
        decreases children.len() - i,
    {
        proof {
            lemma_group_view(children@);
        }
        assert(g[i as int].0 == children@[i as int].0@);
        if seq_eq(&children[i].0, k) {
            return Some(i);
        }
        i = i + 1;
    }
    None
}

proof fn lemma_group_view_push(c: Seq<(Vec<char>, Node)>, x: (Vec<char>, Node))
    ensures
        group_view(c.push(x)) == group_view(c).push((x.0@, node_view(x.1))),
{
    assert(c.push(x).drop_last() =~= c);
}

proof fn lemma_group_view_update(c: Seq<(Vec<char>, Node)>, i: int, x: (Vec<char>, Node))
    requires
        0 <= i < c.len(),
    ensures
        group_view(c.update(i, x)) == group_view(c).update(i, (x.0@, node_view(x.1))),
{
    lemma_group_view(c);
    lemma_group_view(c.update(i, x));
    assert(group_view(c.update(i, x)) =~= group_view(c).update(i, (x.0@, node_view(x.1))));
}

pub open spec fn path_view(path: Seq<Vec<char>>) -> Seq<Seq<char>> {
    path.map_values(|v: Vec<char>| v@)
}

/// Inserts `value` at `path[start..]` under `children`, in place, creating
/// any missing groups on the way; a scalar that is now addressed with a
/// longer path, or a group now addressed as a scalar, is overwritten.
fn insert(children: &mut Vec<(Vec<char>, Node)>, path: &Vec<Vec<char>>, start: usize, value: Vec<char>)
    requires
        start <= path.len(),
    ensures
        group_view(final(children)@) == tree_insert(
            group_view(old(children)@),
            path_view(path@).skip(start as int),
            value@,
        ),
    decreases path.len() - start,
{
    let ghost p = path_view(path@).skip(start as int);
    if start >= path.len() {
        assert(p.len() == 0);
        return;
    }
    assert(p[0] == path@[start as int]@);
    assert(p.drop_first() =~= path_view(path@).skip(start + 1));
    let head = &path[start];
    let found = find_key(children, head);
    proof {
        lemma_group_view(children@);
        lemma_key_index_from(group_view(children@), head@, 0);
    }
    if start + 1 == path.len() {
        match found {
            Some(i) => {
                let ghost before = children@;
                let (k, _old) = children.remove(i);
                children.insert(i, (k, Node::Leaf(value)));
                proof {
                    assert(children@ =~= before.update(i as int, (k, Node::Leaf(value))));
                    lemma_group_view_update(before, i as int, (k, Node::Leaf(value)));
                }
            },
            None => {
                let ghost before = children@;
                children.push((copy_chars(head), Node::Leaf(value)));
                proof {
                    lemma_group_view_push(before, children@.last());
                }
            },
        }
        return;
    }
    match found {
        Some(i) => {
            let ghost before = children@;
            let (k, node) = children.remove(i);
            let mut sub = match node {
                Node::Branch(s) => s,
                Node::Leaf(_) => Vec::new(),
            };
            assert(group_view(sub@) == (match node_view(node) {
                Tree::Branch(s) => s,
                Tree::Leaf(_) => Seq::<(Seq<char>, Tree)>::empty(),
            }));
            insert(&mut sub, path, start + 1, value);
            children.insert(i, (k, Node::Branch(sub)));
            proof {
                assert(children@ =~= before.update(i as int, children@[i as int]));
                lemma_group_view_update(before, i as int, children@[i as int]);
            }
        },
        None => {
            let ghost before = children@;
            let mut sub: Vec<(Vec<char>, Node)> = Vec::new();
            assert(group_view(sub@) == Seq::<(Seq<char>, Tree)>::empty());
            insert(&mut sub, path, start + 1, value);
            children.push((copy_chars(head), Node::Branch(sub)));
            proof {
                lemma_group_view_push(before, children@.last());
            }
        },
    }
}


proof fn lemma_decimal_injective(a: nat, b: nat)
    requires
        decimal(a) == decimal(b),
    ensures
        a == b,
{
    lemma_decimal(a);
    lemma_decimal(b);
}

/// True when the children's keys are exactly the decimal strings
/// `"0" .. "n-1"`, in any order: the group came from a sequence.
fn is_sequence(children: &Vec<(Vec<char>, Node)>) -> (b: bool)
    ensures
        b == is_seq_group(group_view(children@)),
{
    proof {
        lemma_group_view(children@);
    }
    let ghost g = group_view(children@);
    let n = children.len();
    if n == 0 {
        return false;
    }
    let mut seen: Vec<bool> = Vec::new();
    let mut t: usize = 0;
    while t < n
        invariant
            t <= n,
            seen@.len() == t,
            forall|x: int| 0 <= x < t ==> !seen@[x],
        decreases n - t,
    {
        seen.push(false);
        t = t + 1;
    }
    let mut j: usize = 0;
    while j < n
        invariant
            n == children.len(),
            g == group_view(children@),
            g.len() == n,
            j <= n,
            seen@.len() == n,
            forall|x: int| 0 <= x < j ==> is_index_key(#[trigger] g[x].0, n as nat),
            forall|x: int, y: int| 0 <= x < y < j ==> #[trigger] g[x].0 != #[trigger] g[y].0,
            forall|i: nat| i < n ==> (seen@[i as int] <==> exists|x: int| 0 <= x < j && #[trigger] g[x].0 == decimal(i)),
        decreases n - j,
    {
        proof {
            lemma_group_view(children@);
        }
        assert(g[j as int].0 == children@[j as int].0@);
        match index_key(&children[j].0, n) {
            Some(i) => {
                if seen[i] {
                    proof {
                        let x = choose|x: int| 0 <= x < j && #[trigger] g[x].0 == decimal(i as nat);
                        assert(g[x].0 == g[j as int].0);
                    }
                    return false;
                }
                proof {
                    assert forall|x: int| 0 <= x < j implies #[trigger] g[x].0 != g[j as int].0 by {
                        if g[x].0 == g[j as int].0 {
                            assert(seen@[i as int]);
                        }
                    }
                    assert forall|i2: nat| i2 < n implies (seen@.update(i as int, true)[i2 as int] <==> exists|x: int| 0 <= x < j + 1 && #[trigger] g[x].0 == decimal(i2)) by {
                        if i2 == i {
                            assert(g[j as int].0 == decimal(i2));
                        } else {
                            if exists|x: int| 0 <= x < j + 1 && #[trigger] g[x].0 == decimal(i2) {
                                let x = choose|x: int| 0 <= x < j + 1 && #[trigger] g[x].0 == decimal(i2);
                                if x == j {
                                    lemma_decimal_injective(i as nat, i2);
                                }
                            }
                        }
                    }
                }
                seen.set(i, true);
            },
            None => {
                proof {
                    assert(!is_index_key(g[j as int].0, n as nat));
                }
                return false;
            },
        }
        j = j + 1;
    }
    let mut i: usize = 0;
    while i < n
        invariant
            i <= n,
            seen@.len() == n,
            g.len() == n,
            n == children.len(),
            g == group_view(children@),
            forall|x: int| 0 <= x < n ==> is_index_key(#[trigger] g[x].0, n as nat),
            forall|x: int, y: int| 0 <= x < y < n ==> #[trigger] g[x].0 != #[trigger] g[y].0,
            forall|i2: nat| i2 < n ==> (seen@[i2 as int] <==> exists|x: int| 0 <= x < n && #[trigger] g[x].0 == decimal(i2)),
            forall|i2: nat| i2 < i ==> has_key(g, #[trigger] decimal(i2)),
        decreases n - i,
    {
        if !seen[i] {
            proof {
                assert(!has_key(g, decimal(i as nat)));
            }
            return false;
        }
        i = i + 1;
    }
    true
}


/// One level deeper than `ind`.
fn deeper(ind: &Vec<char>) -> (r: Vec<char>)
    ensures
        r@ == ind@ + seq![' ', ' '],
{
    let mut r = copy_chars(ind);
    r.push(' ');
    r.push(' ');
    assert(r@ =~= ind@ + seq![' ', ' ']);
    r
}

proof fn lemma_indent_step(depth: nat)
    ensures
        indent(depth + 1) == indent(depth) + seq![' ', ' '],
{
    assert(indent(depth + 1) =~= indent(depth) + seq![' ', ' ']);
}

/// `s` without the prefix `p`, or all of `s` when it does not start
/// with `p`.
fn strip_prefix_or_all(s: &Vec<char>, p: &Vec<char>) -> (r: Vec<char>)
    ensures
        r@ == strip_prefix_or_keep(s@, p@),
{
    if p.len() <= s.len() {
        let head = subvec(s, 0, p.len());
        if seq_eq(&head, p) {
            return subvec(s, p.len(), s.len());
        }
    }
    copy_chars(s)
}

/// Writes a group at the indentation `ind` (`depth` levels): as a
/// sequence when its keys are `0 .. n-1`, as a mapping otherwise.
fn write_node(
    children: &Vec<(Vec<char>, Node)>,
    ind: &Vec<char>,
    Ghost(depth): Ghost<nat>,
    out: &mut Vec<char>,
)
    requires
        ind@ == indent(depth),
    ensures
        final(out)@ == old(out)@ + render_group(group_view(children@), depth),
    decreases children, 2nat,
{
    if is_sequence(children) {
        write_sequence(children, ind, Ghost(depth), out);
        return;
    }
    let ghost g = group_view(children@);
    let ghost start = out@;
    let mut i: usize = 0;
    while i < children.len()
        invariant
            i <= children.len(),
            g == group_view(children@),
            ind@ == indent(depth),
            out@ + render_map_from(g, depth, i as int) == start + render_map_from(g, depth, 0),
        decreases children.len() - i,
    {
        proof {
            lemma_group_view(children@);
        }
        let ghost before = out@;
        match &children[i].1 {
            Node::Leaf(v) => {
                extend(out, ind);
                extend(out, &children[i].0);
                out.push(':');
                out.push(' ');
                extend(out, v);
                out.push('\n');
                assert(out@ =~= before + (indent(depth) + g[i as int].0 + seq![':', ' '] + v@ + seq!['\n']));
            },
            Node::Branch(sub) => {
                extend(out, ind);
                extend(out, &children[i].0);
                out.push(':');
                out.push('\n');
                let child = deeper(ind);
                proof {
                    lemma_indent_step(depth);
                    assert(decreases_to!(children => children@[i as int]));
                }
                let ghost mid = out@;
                write_node(sub, &child, Ghost(depth + 1), out);
                assert(out@ =~= before + (indent(depth) + g[i as int].0 + seq![':', '\n'] + render_group(group_view(sub@), depth + 1)));
            },
        }
        i = i + 1;
    }
    proof {
        lemma_group_view(children@);
    }
    assert(render_map_from(g, depth, i as int) =~= Seq::<char>::empty());
}

/// Writes a sequence group at `depth`: its items in index order.
fn write_sequence(
    children: &Vec<(Vec<char>, Node)>,
    ind: &Vec<char>,
    Ghost(depth): Ghost<nat>,
    out: &mut Vec<char>,
)
    requires
        ind@ == indent(depth),
    ensures
        final(out)@ == old(out)@ + render_seq_from(group_view(children@), depth, 0),
    decreases children, 1nat,
{
    let ghost g = group_view(children@);
    let ghost start = out@;
    let mut i: usize = 0;
    while i < children.len()
        invariant
            i <= children.len(),
            g == group_view(children@),
            ind@ == indent(depth),
            out@ + render_seq_from(g, depth, i as int) == start + render_seq_from(g, depth, 0),
        decreases children.len() - i,
    {
        proof {
            lemma_group_view(children@);
        }
        let ghost before = out@;
        let key = to_decimal(i);
        match find_key(children, &key) {
            Some(j) => {
                proof {
                    lemma_key_index_from(g, key@, 0);
                }
                match &children[j].1 {
                    Node::Leaf(v) => {
                        extend(out, ind);
                        out.push('-');
                        out.push(' ');
                        extend(out, v);
                        out.push('\n');
                        assert(out@ =~= before + (indent(depth) + seq!['-', ' '] + v@ + seq!['\n']));
                    },
                    Node::Branch(sub) => {
                        proof {
                            assert(decreases_to!(children => children@[j as int]));
                        }
                        write_sequence_item(sub, ind, Ghost(depth), out);
                    },
                }
            },
            None => {},
        }
        i = i + 1;
    }
    proof {
        lemma_group_view(children@);
    }
    assert(render_seq_from(g, depth, i as int) =~= Seq::<char>::empty());
}

/// Writes a group as one sequence item: rendered one level deeper, with
/// the indentation of its first line replaced by `"- "`, e.g.
/// `- name: x` followed by `  port: 1`.
fn write_sequence_item(
    sub: &Vec<(Vec<char>, Node)>,
    ind: &Vec<char>,
    Ghost(depth): Ghost<nat>,
    out: &mut Vec<char>,
)
    requires
        ind@ == indent(depth),
    ensures
        final(out)@ == old(out)@ + render_item(group_view(sub@), depth),
    decreases sub, 3nat,
{
    let child = deeper(ind);
    proof {
        lemma_indent_step(depth);
    }
    let mut rendered: Vec<char> = Vec::new();
    write_node(sub, &child, Ghost(depth + 1), &mut rendered);
    assert(rendered@ =~= render_group(group_view(sub@), depth + 1));
    let ls = split_lines(&rendered);
    let ghost lsv = lines(rendered@);
    if ls.len() == 0 {
        return;
    }
    let ghost start = out@;
    extend(out, ind);
    out.push('-');
    out.push(' ');
    let first = strip_prefix_or_all(&ls[0], &child);
    extend(out, &first);
    out.push('\n');
    let ghost head = out@;
    assert(lsv.subrange(1, 1) =~= Seq::<Seq<char>>::empty());
    let mut k: usize = 1;
    while k < ls.len()
        invariant
            1 <= k <= ls.len(),
            ls@.len() == lsv.len(),
            forall|t: int| 0 <= t < ls@.len() ==> (#[trigger] ls@[t])@ == lsv[t],
            out@ == head + terminated_text(lsv.subrange(1, k as int)),
        decreases ls.len() - k,
    {
        extend(out, &ls[k]);
        out.push('\n');
        assert(lsv.subrange(1, k + 1).drop_last() =~= lsv.subrange(1, k as int));
        assert(out@ =~= head + terminated_text(lsv.subrange(1, k + 1)));
        k = k + 1;
    }
    assert(lsv.subrange(1, k as int) =~= lsv.drop_first());
    assert(out@ =~= start + render_item(group_view(sub@), depth));
}


/// `key.split("__")`.
fn split_dunder_exec(key: &Vec<char>) -> (r: Vec<Vec<char>>)
    ensures
        path_view(r@) == split_dunder(key@),
{
    let mut r: Vec<Vec<char>> = Vec::new();
    let mut cur: Vec<char> = Vec::new();
    let mut i: usize = 0;
    assert(key@.skip(0) =~= key@);
    assert(path_view(r@) =~= Seq::<Seq<char>>::empty());
    while i < key.len()
        invariant
            i <= key.len(),
            path_view(r@) + split_dunder_from(key@.skip(i as int), cur@) == split_dunder(key@),
        decreases key.len() - i,
    {
        let ghost rest = key@.skip(i as int);
        if i + 1 < key.len() && key[i] == '_' && key[i + 1] == '_' {
            let ghost before = path_view(r@);
            assert(rest.skip(2) =~= key@.skip(i + 2));
            r.push(cur);
            assert(path_view(r@) =~= before + seq![r@.last()@]);
            cur = Vec::new();
            i = i + 2;
        } else {
            assert(rest.drop_first() =~= key@.skip(i + 1));
            cur.push(key[i]);
            i = i + 1;
        }
    }
    assert(key@.skip(i as int) =~= Seq::<char>::empty());
    let ghost before = path_view(r@);
    r.push(cur);
    assert(path_view(r@) =~= before + seq![r@.last()@]);
    r
}

impl EnvTree {
    /// No keys yet.
    pub fn new() -> (t: EnvTree)
        ensures
            t@ == Seq::<(Seq<char>, Tree)>::empty(),
            keys_unique(t@),
            groups_nonempty(t@),
    {
        let t = EnvTree { root: Vec::new() };
        assert(t@ =~= Seq::<(Seq<char>, Tree)>::empty());
        t
    }

    /// Reads one `KEY=VALUE` line into the tree.
    pub fn add_line(&mut self, line: &str)
        ensures
            final(self)@ == line_effect(old(self)@, line@),
            keys_unique(old(self)@) ==> keys_unique(final(self)@),
            groups_nonempty(old(self)@) ==> groups_nonempty(final(self)@),
    {
        let chars = chars_with_len(line);
        self.add_chars(&chars);
    }

    fn add_chars(&mut self, line: &Vec<char>)
        ensures
            final(self)@ == line_effect(old(self)@, line@),
            keys_unique(old(self)@) ==> keys_unique(final(self)@),
            groups_nonempty(old(self)@) ==> groups_nonempty(final(self)@),
    {
        let (a, b) = trim_bounds(line);
        let t = subvec(line, a, b);
        if t.len() == 0 || t[0] == '#' {
            return;
        }
        match find_char_index(&t, '=') {
            None => {},
            Some(i) => {
                proof {
                    lemma_find_char(t@, '=', 0);
                }
                assert(i < t.len());
                let key = subvec(&t, 0, i);
                assert(key@ == t@.take(i as int));
                let value = subvec(&t, i + 1, t.len());
                assert(value@ == t@.skip(i + 1));
                let segs = split_dunder_exec(&key);
                let mut path: Vec<Vec<char>> = Vec::new();
                let mut k: usize = 0;
                while k < segs.len()
                    invariant
                        k <= segs.len(),
                        path_view(segs@) == split_dunder(key@),
                        path_view(path@) == path_view(segs@).take(k as int).map_values(
                            |seg: Seq<char>| lowered(seg),
                        ),
                    decreases segs.len() - k,
                {
                    let ghost before = path_view(path@);
                    assert(path_view(segs@)[k as int] == segs@[k as int]@);
                    let low = to_lowercase(&segs[k]);
                    assert(low@ == lowered(segs@[k as int]@));
                    path.push(low);
                    assert(path_view(path@) =~= before.push(low@));
                    assert(path_view(segs@).take(k + 1).drop_last() =~= path_view(segs@).take(k as int));
                    k = k + 1;
                    assert(path_view(path@) =~= path_view(segs@).take(k as int).map_values(
                        |seg: Seq<char>| lowered(seg),
                    ));
                }
                assert(path_view(segs@).take(k as int) =~= path_view(segs@));
                assert(path_view(path@).skip(0) =~= key_path(key@));
                proof {
                    if keys_unique(self@) {
                        lemma_insert_keys_unique(self@, key_path(key@), value@);
                    }
                    if groups_nonempty(self@) {
                        lemma_insert_groups_nonempty(self@, key_path(key@), value@);
                    }
                }
                insert(&mut self.root, &path, 0, value);
            },
        }
    }

    /// The tree as nested YAML.
    pub fn render(&self) -> (text: String)
        ensures
            text@ == render_group(self@, 0),
    {
        let mut out: Vec<char> = Vec::new();
        let ind: Vec<char> = Vec::new();
        assert(ind@ =~= indent(0));
        write_node(&self.root, &ind, Ghost(0), &mut out);
        assert(out@ =~= render_group(self@, 0));
        string_from_chars(&out)
    }
}

/// Converts `KEY=VALUE` lines to nested YAML.
pub fn convert(input: &str) -> (out: String)
    ensures
        out@ == expand_text(input@),
{
    let chars = chars_with_len(input);
    let ls = split_lines(&chars);
    let ghost all = lines(chars@);
    let mut tree = EnvTree::new();
    let mut i: usize = 0;
    assert(all.take(0) =~= Seq::<Seq<char>>::empty());
    while i < ls.len()
        invariant
            i <= ls.len(),
            ls@.len() == all.len(),
            all == lines(chars@),
            forall|k: int| 0 <= k < ls@.len() ==> (#[trigger] ls@[k])@ == all[k],
            tree@ == build_tree(all.take(i as int)),
        decreases ls.len() - i,
    {
        assert(all.take(i + 1).drop_last() =~= all.take(i as int));
        tree.add_chars(&ls[i]);
        i = i + 1;
    }
    assert(all.take(ls.len() as int) =~= all);
    tree.render()
}

} // verus!
