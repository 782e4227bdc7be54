//! The two conversions undo each other on canonical documents: a tree of
//! plain keys and plain values, written as YAML by `env_to_yaml` or as
//! `KEY=VALUE` lines, is read back to the same text by the other
//! direction.
use vstd::prelude::*;
use crate::text::{
    ascii_lower, ascii_upper, byte_len, decimal, find_char, find_pair, is_ws, lemma_find_char,
    lemma_find_pair, lemma_ws_run_end, lines, lines_from, strip_cr, terminated_text, trim,
    trim_end, trim_start, ws_run_end,
};
use crate::env_to_yaml::{
    build_tree, expand_text, indent, is_seq_group, key_index_from, lemma_key_index_from,
    render_group, render_item, render_map_from, render_seq_from, strip_prefix_or_keep, Tree,
};
use crate::yaml_to_env::{
    assignment, env_char, env_name, flatten_text, initial_model, is_mapping_item, key_value,
    path_prefix, run, step, without_comment, FlatModel, FrameModel,
};

verus! {

// ---------------------------------------------------------------------
// Lines of text
// ---------------------------------------------------------------------

pub proof fn lemma_terminated_append(a: Seq<Seq<char>>, b: Seq<Seq<char>>)
    ensures
        terminated_text(a + b) == terminated_text(a) + terminated_text(b),
    decreases b.len(),
{
    if b.len() == 0 {
        assert(a + b =~= a);
        assert(terminated_text(a) + Seq::<char>::empty() =~= terminated_text(a));
    } else {
        lemma_terminated_append(a, b.drop_last());
        assert((a + b).drop_last() =~= a + b.drop_last());
        assert(terminated_text(a + b) =~= terminated_text(a) + terminated_text(b));
    }
}

pub proof fn lemma_terminated_single(l: Seq<char>)
    ensures
        terminated_text(seq![l]) == l + seq!['\n'],
{
    assert(seq![l].drop_last() =~= Seq::<Seq<char>>::empty());
    assert(terminated_text(Seq::<Seq<char>>::empty()) == Seq::<char>::empty());
    assert(seq![l].last() == l);
    assert(terminated_text(seq![l]) =~= l + seq!['\n']);
}

/// A line as `lines` gives it back: no `'\n'` inside, and no whitespace
/// (so no `'\r'`) at its end.
pub open spec fn line_ok(l: Seq<char>) -> bool {
    &&& l.len() > 0
    &&& forall|i: int| 0 <= i < l.len() ==> #[trigger] l[i] != '\n'
    &&& !is_ws(l.last())
}

pub open spec fn lines_ok(ls: Seq<Seq<char>>) -> bool {
    forall|i: int| 0 <= i < ls.len() ==> line_ok(#[trigger] ls[i])
}

proof fn lemma_lines_from_line(l: Seq<char>, rest: Seq<char>, cur: Seq<char>)
    requires
        forall|i: int| 0 <= i < l.len() ==> #[trigger] l[i] != '\n',
    ensures
        lines_from(l + seq!['\n'] + rest, cur) == seq![strip_cr(cur + l)] + lines_from(rest, Seq::empty()),
    decreases l.len(),
{
    let s = l + seq!['\n'] + rest;
    if l.len() == 0 {
        assert(s.drop_first() =~= rest);
        assert(cur + l =~= cur);
    } else {
        assert(s[0] == l[0]);
        assert(s.drop_first() =~= l.drop_first() + seq!['\n'] + rest);
        lemma_lines_from_line(l.drop_first(), rest, cur.push(l[0]));
        assert(cur.push(l[0]) + l.drop_first() =~= cur + l);
    }
}

/// `lines` gives back the lines that `terminated_text` joined.
pub proof fn lemma_lines_terminated(ls: Seq<Seq<char>>)
    requires
        lines_ok(ls),
    ensures
        lines(terminated_text(ls)) == ls,
    decreases ls.len(),
{
    if ls.len() == 0 {
        return;
    }
    let rest = ls.drop_first();
    assert(ls =~= seq![ls[0]] + rest);
    lemma_terminated_append(seq![ls[0]], rest);
    lemma_terminated_single(ls[0]);
    assert(lines_ok(rest)) by {
        assert forall|i: int| 0 <= i < rest.len() implies line_ok(#[trigger] rest[i]) by {
            assert(rest[i] == ls[i + 1]);
        }
    }
    lemma_lines_terminated(rest);
    assert(line_ok(ls[0]));
    lemma_lines_from_line(ls[0], terminated_text(rest), Seq::empty());
    assert(terminated_text(ls) =~= ls[0] + seq!['\n'] + terminated_text(rest));
    assert(Seq::<char>::empty() + ls[0] =~= ls[0]);
    assert(!is_ws(ls[0].last()));
    assert(strip_cr(ls[0]) == ls[0]);
}

// ---------------------------------------------------------------------
// Canonical trees
// ---------------------------------------------------------------------

pub open spec fn is_key_char(c: char) -> bool {
    let n = c as u32;
    ||| (48 <= n && n <= 57)
    ||| (97 <= n && n <= 122)
    ||| n == 95
}

/// A key that both directions keep as it is: lower-case ASCII letters,
/// digits and `'_'`, not empty, no `"__"` inside. (A key that has
/// children must also not end in `'_'`, see `canonical`.)
pub open spec fn plain_key(k: Seq<char>) -> bool {
    &&& k.len() > 0
    &&& forall|i: int| 0 <= i < k.len() ==> is_key_char(#[trigger] k[i])
    &&& forall|i: int| 0 <= i < k.len() - 1 ==> !(#[trigger] k[i] == '_' && k[i + 1] == '_')
}

/// A value that both directions keep as it is: not empty, no whitespace
/// at either end, no line break, and no `" #"` comment unless quoted.
pub open spec fn plain_value(v: Seq<char>) -> bool {
    &&& v.len() > 0
    &&& !is_ws(v[0])
    &&& !is_ws(v.last())
    &&& forall|i: int| 0 <= i < v.len() ==> #[trigger] v[i] != '\n'
    &&& without_comment(v) == v
}

/// A group that both directions reproduce: not empty, distinct plain
/// keys, the keys of subgroups not ending in `'_'` (so that the `"__"`
/// after them is read as the separator), and, for a sequence group, items
/// in index order that are scalars not shaped like `key: value`, or
/// groups that are mappings.
pub open spec fn canonical(c: Seq<(Seq<char>, Tree)>) -> bool
    decreases c,
{
    &&& c.len() > 0
    &&& forall|a: int, b: int| 0 <= a < b < c.len() ==> #[trigger] c[a].0 != #[trigger] c[b].0
    &&& forall|a: int| 0 <= a < c.len() ==> plain_key(#[trigger] c[a].0)
    &&& is_seq_group(c) ==> forall|a: int| 0 <= a < c.len() ==> #[trigger] c[a].0 == decimal(a as nat)
    &&& forall|a: int|
        0 <= a < c.len() ==> match #[trigger] c[a].1 {
            Tree::Leaf(v) => plain_value(v) && (is_seq_group(c) ==> !is_mapping_item(v)),
            Tree::Branch(sub) => canonical(sub) && c[a].0.last() != '_' && (is_seq_group(c)
                ==> !is_seq_group(sub)),
        }
}

/// The tree a whole document stands for: empty, or a canonical group.
pub open spec fn canonical_root(c: Seq<(Seq<char>, Tree)>) -> bool {
    c.len() == 0 || canonical(c)
}

// ---------------------------------------------------------------------
// The YAML of a canonical tree, line by line
// ---------------------------------------------------------------------

pub open spec fn group_lines(c: Seq<(Seq<char>, Tree)>, d: nat) -> Seq<Seq<char>>
    decreases c, c.len() + 1,
{
    if is_seq_group(c) {
        seq_lines_from(c, d, 0)
    } else {
        map_lines_from(c, d, 0)
    }
}

pub open spec fn leaf_line(d: nat, k: Seq<char>, v: Seq<char>) -> Seq<char> {
    indent(d) + k + seq![':', ' '] + v
}

pub open spec fn key_line(d: nat, k: Seq<char>) -> Seq<char> {
    indent(d) + k + seq![':']
}

pub open spec fn dash_line(d: nat, x: Seq<char>) -> Seq<char> {
    indent(d) + seq!['-', ' '] + x
}

pub open spec fn map_lines_from(c: Seq<(Seq<char>, Tree)>, d: nat, i: int) -> Seq<Seq<char>>
    decreases c, c.len() - i,
{
    if i < 0 || i >= c.len() {
        Seq::empty()
    } else {
        let rest = map_lines_from(c, d, i + 1);
        match c[i].1 {
            Tree::Leaf(v) => seq![leaf_line(d, c[i].0, v)] + rest,
            Tree::Branch(sub) => {
                proof {
                    assert(decreases_to!(c => c[i]));
                }
                seq![key_line(d, c[i].0)] + group_lines(sub, d + 1) + rest
            },
        }
    }
}

pub open spec fn seq_lines_from(c: Seq<(Seq<char>, Tree)>, d: nat, i: int) -> Seq<Seq<char>>
    decreases c, c.len() - i,
{
    if i < 0 || i >= c.len() {
        Seq::empty()
    } else {
        let rest = seq_lines_from(c, d, i + 1);
        match c[i].1 {
            Tree::Leaf(v) => seq![dash_line(d, v)] + rest,
            Tree::Branch(sub) => {
                proof {
                    assert(decreases_to!(c => c[i]));
                }
                item_lines(sub, d) + rest
            },
        }
    }
}

pub open spec fn item_lines(sub: Seq<(Seq<char>, Tree)>, d: nat) -> Seq<Seq<char>>
    decreases sub, sub.len() + 2,
{
    let ls = group_lines(sub, d + 1);
    if ls.len() == 0 {
        Seq::empty()
    } else {
        seq![dash_line(d, ls[0].skip(2 * (d + 1) as int))] + ls.drop_first()
    }
}


pub open spec fn no_newline(s: Seq<char>) -> bool {
    forall|i: int| 0 <= i < s.len() ==> #[trigger] s[i] != '\n'
}

proof fn lemma_no_newline_concat(a: Seq<char>, b: Seq<char>)
    requires
        no_newline(a),
        no_newline(b),
    ensures
        no_newline(a + b),
{
    assert forall|i: int| 0 <= i < (a + b).len() implies #[trigger] (a + b)[i] != '\n' by {
        if i < a.len() {
            assert((a + b)[i] == a[i]);
        } else {
            assert((a + b)[i] == b[i - a.len()]);
        }
    }
}

proof fn lemma_plain_key_no_newline(k: Seq<char>)
    requires
        plain_key(k),
    ensures
        no_newline(k),
        !is_ws(k.last()),
        !is_ws(k[0]),
{
    assert forall|i: int| 0 <= i < k.len() implies #[trigger] k[i] != '\n' by {
        assert(is_key_char(k[i]));
    }
    assert(is_key_char(k[k.len() - 1]));
    assert(is_key_char(k[0]));
}

proof fn lemma_indent_no_newline(d: nat)
    ensures
        no_newline(indent(d)),
        indent(d).len() == 2 * d,
        forall|i: int| 0 <= i < indent(d).len() ==> is_ws(#[trigger] indent(d)[i]),
{
}

/// The first line of a group written at depth `d` starts with the
/// group's indentation and has more after it.
pub open spec fn starts_at(ls: Seq<Seq<char>>, d: nat) -> bool {
    &&& ls.len() > 0
    &&& ls[0].len() > 2 * d
    &&& ls[0].take(2 * d as int) == indent(d)
}

proof fn lemma_leaf_line_ok(d: nat, k: Seq<char>, v: Seq<char>)
    requires
        plain_key(k),
        plain_value(v),
    ensures
        line_ok(leaf_line(d, k, v)),
        leaf_line(d, k, v).len() > 2 * d,
        leaf_line(d, k, v).take(2 * d as int) == indent(d),
{
    lemma_plain_key_no_newline(k);
    lemma_indent_no_newline(d);
    lemma_no_newline_concat(indent(d), k);
    lemma_no_newline_concat(indent(d) + k, seq![':', ' ']);
    lemma_no_newline_concat(indent(d) + k + seq![':', ' '], v);
    assert(leaf_line(d, k, v).take(2 * d as int) =~= indent(d));
}

proof fn lemma_key_line_ok(d: nat, k: Seq<char>)
    requires
        plain_key(k),
    ensures
        line_ok(key_line(d, k)),
        key_line(d, k).len() > 2 * d,
        key_line(d, k).take(2 * d as int) == indent(d),
{
    lemma_plain_key_no_newline(k);
    lemma_indent_no_newline(d);
    lemma_no_newline_concat(indent(d), k);
    lemma_no_newline_concat(indent(d) + k, seq![':']);
    assert(key_line(d, k).take(2 * d as int) =~= indent(d));
}

proof fn lemma_dash_line_ok(d: nat, x: Seq<char>)
    requires
        x.len() > 0,
        no_newline(x),
        !is_ws(x.last()),
    ensures
        line_ok(dash_line(d, x)),
        dash_line(d, x).len() > 2 * d,
        dash_line(d, x).take(2 * d as int) == indent(d),
{
    lemma_indent_no_newline(d);
    lemma_no_newline_concat(indent(d), seq!['-', ' ']);
    lemma_no_newline_concat(indent(d) + seq!['-', ' '], x);
    assert(dash_line(d, x).take(2 * d as int) =~= indent(d));
}

/// In a canonical sequence group, item `i` is found at index `i`.
proof fn lemma_seq_index(c: Seq<(Seq<char>, Tree)>, i: int)
    requires
        canonical(c),
        is_seq_group(c),
        0 <= i < c.len(),
    ensures
        key_index_from(c, decimal(i as nat), 0) == Some(i),
{
    lemma_key_index_from(c, decimal(i as nat), 0);
    assert(c[i].0 == decimal(i as nat));
    match key_index_from(c, decimal(i as nat), 0) {
        Some(j) => {
            if j != i {
                assert(j < i);
                assert(c[j].0 == c[i].0);
            }
        },
        None => {},
    }
}

/// `write_node` writes a canonical group as the lines `group_lines`.
pub proof fn lemma_render_group(c: Seq<(Seq<char>, Tree)>, d: nat)
    requires
        canonical(c),
    ensures
        render_group(c, d) == terminated_text(group_lines(c, d)),
        lines_ok(group_lines(c, d)),
        starts_at(group_lines(c, d), d),
    decreases c, c.len() + 1,
{
    if is_seq_group(c) {
        lemma_render_seq_from(c, d, 0);
    } else {
        lemma_render_map_from(c, d, 0);
    }
}

proof fn lemma_lines_ok_concat(a: Seq<Seq<char>>, b: Seq<Seq<char>>)
    requires
        lines_ok(a),
        lines_ok(b),
    ensures
        lines_ok(a + b),
{
    assert forall|i: int| 0 <= i < (a + b).len() implies line_ok(#[trigger] (a + b)[i]) by {
        if i < a.len() {
            assert((a + b)[i] == a[i]);
        } else {
            assert((a + b)[i] == b[i - a.len()]);
        }
    }
}

#[verifier::spinoff_prover]
#[verifier::rlimit(40)]
proof fn lemma_render_map_from(c: Seq<(Seq<char>, Tree)>, d: nat, i: int)
    requires
        canonical(c),
        0 <= i <= c.len(),
    ensures
        render_map_from(c, d, i) == terminated_text(map_lines_from(c, d, i)),
        lines_ok(map_lines_from(c, d, i)),
        i < c.len() ==> starts_at(map_lines_from(c, d, i), d),
    decreases c, c.len() - i,
{
    if i >= c.len() {
        return;
    }
    lemma_render_map_from(c, d, i + 1);
    let rest = map_lines_from(c, d, i + 1);
    let k = c[i].0;
    assert(plain_key(k));
    match c[i].1 {
        Tree::Leaf(v) => {
            assert(plain_value(v));
            lemma_leaf_line_ok(d, k, v);
            let l = leaf_line(d, k, v);
            lemma_terminated_append(seq![l], rest);
            lemma_terminated_single(l);
            assert(lines_ok(seq![l]));
            lemma_lines_ok_concat(seq![l], rest);
            assert(render_map_from(c, d, i) =~= terminated_text(map_lines_from(c, d, i)));
        },
        Tree::Branch(sub) => {
            assert(canonical(sub));
            assert(decreases_to!(c => c[i]));
            lemma_render_group(sub, d + 1);
            lemma_key_line_ok(d, k);
            let l = key_line(d, k);
            let g = group_lines(sub, d + 1);
            lemma_terminated_append(seq![l] + g, rest);
            lemma_terminated_append(seq![l], g);
            lemma_terminated_single(l);
            assert(lines_ok(seq![l]));
            lemma_lines_ok_concat(seq![l], g);
            lemma_lines_ok_concat(seq![l] + g, rest);
            assert(render_map_from(c, d, i) =~= terminated_text(map_lines_from(c, d, i)));
        },
    }
}

#[verifier::spinoff_prover]
#[verifier::rlimit(40)]
proof fn lemma_render_seq_from(c: Seq<(Seq<char>, Tree)>, d: nat, i: int)
    requires
        canonical(c),
        is_seq_group(c),
        0 <= i <= c.len(),
    ensures
        render_seq_from(c, d, i) == terminated_text(seq_lines_from(c, d, i)),
        lines_ok(seq_lines_from(c, d, i)),
        i < c.len() ==> starts_at(seq_lines_from(c, d, i), d),
    decreases c, c.len() - i,
{
    if i >= c.len() {
        return;
    }
    lemma_render_seq_from(c, d, i + 1);
    lemma_seq_index(c, i);
    let rest = seq_lines_from(c, d, i + 1);
    match c[i].1 {
        Tree::Leaf(v) => {
            assert(plain_value(v));
            lemma_dash_line_ok(d, v);
            let l = dash_line(d, v);
            lemma_terminated_append(seq![l], rest);
            lemma_terminated_single(l);
            assert(lines_ok(seq![l]));
            lemma_lines_ok_concat(seq![l], rest);
            assert(render_seq_from(c, d, i) =~= terminated_text(seq_lines_from(c, d, i)));
        },
        Tree::Branch(sub) => {
            assert(canonical(sub));
            assert(decreases_to!(c => c[i]));
            lemma_render_item(sub, d);
            let it = item_lines(sub, d);
            lemma_terminated_append(it, rest);
            lemma_lines_ok_concat(it, rest);
            assert(render_seq_from(c, d, i) =~= terminated_text(seq_lines_from(c, d, i)));
        },
    }
}

#[verifier::spinoff_prover]
#[verifier::rlimit(40)]
proof fn lemma_render_item(sub: Seq<(Seq<char>, Tree)>, d: nat)
    requires
        canonical(sub),
    ensures
        render_item(sub, d) == terminated_text(item_lines(sub, d)),
        lines_ok(item_lines(sub, d)),
        starts_at(item_lines(sub, d), d),
    decreases sub, sub.len() + 2,
{
    lemma_render_group(sub, d + 1);
    let ls = group_lines(sub, d + 1);
    lemma_lines_terminated(ls);
    let first = ls[0];
    assert(line_ok(first));
    let x = first.skip(2 * (d + 1) as int);
    assert(strip_prefix_or_keep(first, indent(d + 1)) == x);
    assert(no_newline(x)) by {
        assert forall|t: int| 0 <= t < x.len() implies #[trigger] x[t] != '\n' by {
            assert(x[t] == first[t + 2 * (d + 1)]);
        }
    }
    assert(x.last() == first.last());
    lemma_dash_line_ok(d, x);
    let l = dash_line(d, x);
    let rest = ls.drop_first();
    assert(lines_ok(rest)) by {
        assert forall|t: int| 0 <= t < rest.len() implies line_ok(#[trigger] rest[t]) by {
            assert(rest[t] == ls[t + 1]);
        }
    }
    lemma_terminated_append(seq![l], rest);
    lemma_terminated_single(l);
    assert(lines_ok(seq![l]));
    lemma_lines_ok_concat(seq![l], rest);
    assert(render_item(sub, d) =~= terminated_text(item_lines(sub, d)));
}


// ---------------------------------------------------------------------
// What the YAML reader does with each kind of line written above
// ---------------------------------------------------------------------

/// `a` all whitespace followed by a non-whitespace character.
proof fn lemma_ws_run_end_at(s: Seq<char>, m: int)
    requires
        0 <= m < s.len(),
        forall|j: int| 0 <= j < m ==> is_ws(#[trigger] s[j]),
        !is_ws(s[m]),
    ensures
        ws_run_end(s, 0) == m,
{
    lemma_ws_run_end(s, 0);
    let r = ws_run_end(s, 0);
    if r < m {
        assert(is_ws(s[r]));
    }
    if r > m {
        assert(is_ws(s[m]));
    }
}

proof fn lemma_byte_len_spaces(n: nat)
    ensures
        byte_len(Seq::new(n, |i: int| ' ')) == n,
    decreases n,
{
    if n > 0 {
        assert(Seq::new(n, |i: int| ' ').drop_first() =~= Seq::new((n - 1) as nat, |i: int| ' '));
        lemma_byte_len_spaces((n - 1) as nat);
    }
}

/// A line made of `d` levels of indentation and a text `x` that neither
/// starts nor ends with whitespace.
proof fn lemma_trim_shape(d: nat, x: Seq<char>)
    requires
        x.len() > 0,
        !is_ws(x[0]),
        !is_ws(x.last()),
    ensures
        trim_end(indent(d) + x) == indent(d) + x,
        trim_start(indent(d) + x) == x,
        crate::yaml_to_env::leading_ws_bytes(indent(d) + x) == 2 * d,
{
    let s = indent(d) + x;
    assert(s.last() == x.last());
    crate::text::lemma_trim_end_noop(s);
    assert forall|j: int| 0 <= j < 2 * d implies is_ws(#[trigger] s[j]) by {
        assert(s[j] == ' ');
    }
    assert(s[2 * d as int] == x[0]);
    lemma_ws_run_end_at(s, 2 * d as int);
    assert(s.skip(2 * d as int) =~= x);
    assert(s.take(2 * d as int) =~= indent(d));
    lemma_byte_len_spaces(2 * d);
}

/// `c` first occurs at `m`.
proof fn lemma_find_char_first(s: Seq<char>, c: char, m: int)
    requires
        0 <= m < s.len(),
        s[m] == c,
        forall|j: int| 0 <= j < m ==> #[trigger] s[j] != c,
    ensures
        find_char(s, c, 0) == Some(m),
{
    lemma_find_char(s, c, 0);
    match find_char(s, c, 0) {
        Some(k) => {
            if k < m {
                assert(s[k] == c);
            }
        },
        None => {},
    }
}

proof fn lemma_trim_plain(x: Seq<char>)
    requires
        x.len() > 0,
        !is_ws(x[0]),
        !is_ws(x.last()),
    ensures
        trim(x) == x,
{
    crate::text::lemma_trim_start_noop(x);
    crate::text::lemma_trim_end_noop(x);
}

proof fn lemma_key_no_colon(k: Seq<char>)
    requires
        plain_key(k),
    ensures
        forall|j: int| 0 <= j < k.len() ==> #[trigger] k[j] != ':',
        forall|j: int| 0 <= j < k.len() ==> #[trigger] k[j] != '-',
        forall|j: int| 0 <= j < k.len() ==> #[trigger] k[j] != '#',
        forall|j: int| 0 <= j < k.len() ==> #[trigger] k[j] != '=',
{
    assert forall|j: int| 0 <= j < k.len() implies #[trigger] k[j] != ':' && k[j] != '-' && k[j] != '#' && k[j] != '=' by {
        assert(is_key_char(k[j]));
    }
}

/// `key: value` splits into the key and the value.
proof fn lemma_key_value_leaf(k: Seq<char>, v: Seq<char>)
    requires
        plain_key(k),
        plain_value(v),
    ensures
        key_value(k + seq![':', ' '] + v) == (k, Some(v)),
        is_mapping_item(k + seq![':', ' '] + v),
{
    let s = k + seq![':', ' '] + v;
    lemma_key_no_colon(k);
    lemma_plain_key_no_newline(k);
    assert forall|j: int| 0 <= j < k.len() implies #[trigger] s[j] != ':' by {
        assert(s[j] == k[j]);
    }
    lemma_find_char_first(s, ':', k.len() as int);
    assert(s.take(k.len() as int) =~= k);
    lemma_trim_plain(k);
    let after = s.skip(k.len() as int + 1);
    assert(after =~= seq![' '] + v);
    assert(after[0] == ' ');
    assert(after[1] == v[0]);
    lemma_ws_run_end_at(after, 1);
    assert(trim_start(after) =~= v);
    crate::text::lemma_trim_end_noop(v);
    lemma_find_pair(s, ':', ' ', 0);
    assert(s[k.len() as int] == ':' && s[k.len() as int + 1] == ' ');
}

/// `key:` gives the key and no value.
proof fn lemma_key_value_key(k: Seq<char>)
    requires
        plain_key(k),
    ensures
        key_value(k + seq![':']) == (k, None::<Seq<char>>),
        is_mapping_item(k + seq![':']),
{
    let s = k + seq![':'];
    lemma_key_no_colon(k);
    lemma_plain_key_no_newline(k);
    assert forall|j: int| 0 <= j < k.len() implies #[trigger] s[j] != ':' by {
        assert(s[j] == k[j]);
    }
    lemma_find_char_first(s, ':', k.len() as int);
    assert(s.take(k.len() as int) =~= k);
    lemma_trim_plain(k);
    let after = s.skip(k.len() as int + 1);
    assert(after =~= Seq::<char>::empty());
    assert(trim(after) =~= Seq::<char>::empty());
    assert(find_pair(Seq::<char>::empty(), ' ', '#', 0) is None);
}

pub open spec fn frame_names(stack: Seq<FrameModel>) -> Seq<Seq<char>> {
    stack.map_values(|f: FrameModel| f.name)
}

/// The keys of `path`, each followed by `"__"`.
pub open spec fn prefix_join(path: Seq<Seq<char>>) -> Seq<char>
    decreases path.len(),
{
    if path.len() == 0 {
        Seq::empty()
    } else {
        prefix_join(path.drop_last()) + path.last() + seq!['_', '_']
    }
}

/// The variable name of the key `k` under the parents `path`.
pub open spec fn env_key(path: Seq<Seq<char>>, k: Seq<char>) -> Seq<char> {
    (prefix_join(path) + k).map_values(|c: char| env_char(c))
}

proof fn lemma_path_prefix_names(stack: Seq<FrameModel>)
    ensures
        path_prefix(stack) == prefix_join(frame_names(stack)),
    decreases stack.len(),
{
    if stack.len() > 0 {
        lemma_path_prefix_names(stack.drop_last());
        assert(frame_names(stack.drop_last()) =~= frame_names(stack).drop_last());
    }
}

proof fn lemma_env_name(stack: Seq<FrameModel>, k: Seq<char>)
    ensures
        env_name(stack, k) == env_key(frame_names(stack), k),
{
    lemma_path_prefix_names(stack);
}


/// The reader's stack holds `base` at the bottom and, above it, only
/// parents indented `d` levels or deeper.
pub open spec fn frames_ok(st: FlatModel, base: Seq<FrameModel>, d: nat) -> bool {
    &&& base.len() <= st.stack.len()
    &&& st.stack.take(base.len() as int) == base
    &&& forall|j: int| base.len() <= j < st.stack.len() ==> #[trigger] st.stack[j].indent >= 2 * d
}

/// Every parent in `base` sits above depth `d`.
pub open spec fn base_below(base: Seq<FrameModel>, d: nat) -> bool {
    forall|j: int| 0 <= j < base.len() ==> #[trigger] base[j].indent < 2 * d
}

proof fn lemma_pop_to_base(st: FlatModel, base: Seq<FrameModel>, d: nat)
    requires
        frames_ok(st, base, d),
        base_below(base, d),
    ensures
        crate::yaml_to_env::pop_to(st.stack, 2 * d) == base,
{
    let k = crate::yaml_to_env::lemma_pop_to(st.stack, 2 * d);
    if k < base.len() {
        assert(st.stack[k] == base[k]);
    }
    if k > base.len() {
        assert(st.stack[k - 1].indent >= 2 * d);
    }
}

/// The index the next sequence item under `base` takes.
pub open spec fn item_index(st: FlatModel, base: Seq<FrameModel>) -> nat {
    if base.len() > 0 {
        match base.last().seq_next {
            Some(n) => n,
            None => 0,
        }
    } else {
        st.root_next
    }
}

/// The state once the next item under `base` has been numbered.
pub open spec fn numbered(st: FlatModel, base: Seq<FrameModel>) -> FlatModel {
    if base.len() > 0 {
        FlatModel {
            stack: base.update(
                base.len() - 1,
                FrameModel {
                    indent: base.last().indent,
                    name: base.last().name,
                    seq_next: Some(item_index(st, base) + 1),
                },
            ),
            root_next: st.root_next,
        }
    } else {
        FlatModel { stack: base, root_next: st.root_next + 1 }
    }
}

proof fn lemma_step_leaf(st: FlatModel, base: Seq<FrameModel>, d: nat, k: Seq<char>, v: Seq<char>)
    requires
        frames_ok(st, base, d),
        base_below(base, d),
        plain_key(k),
        plain_value(v),
    ensures
        step(st, leaf_line(d, k, v)) == (
            FlatModel { stack: base, root_next: st.root_next },
            Some(assignment(env_name(base, k), v)),
        ),
{
    let x = k + seq![':', ' '] + v;
    assert(leaf_line(d, k, v) =~= indent(d) + x);
    lemma_plain_key_no_newline(k);
    lemma_key_no_colon(k);
    assert(x[0] == k[0]);
    assert(x.last() == v.last());
    lemma_trim_shape(d, x);
    lemma_pop_to_base(st, base, d);
    lemma_key_value_leaf(k, v);
}

proof fn lemma_step_key(st: FlatModel, base: Seq<FrameModel>, d: nat, k: Seq<char>)
    requires
        frames_ok(st, base, d),
        base_below(base, d),
        plain_key(k),
    ensures
        step(st, key_line(d, k)) == (
            FlatModel {
                stack: base.push(FrameModel { indent: 2 * d, name: k, seq_next: None }),
                root_next: st.root_next,
            },
            None::<Seq<char>>,
        ),
{
    let x = k + seq![':'];
    assert(key_line(d, k) =~= indent(d) + x);
    lemma_plain_key_no_newline(k);
    lemma_key_no_colon(k);
    assert(x[0] == k[0]);
    lemma_trim_shape(d, x);
    lemma_pop_to_base(st, base, d);
    lemma_key_value_key(k);
}

proof fn lemma_dash_shape(d: nat, x: Seq<char>)
    requires
        x.len() > 0,
        !is_ws(x[0]),
        !is_ws(x.last()),
    ensures
        trim_end(dash_line(d, x)) == dash_line(d, x),
        trim_start(dash_line(d, x)) == seq!['-', ' '] + x,
        crate::yaml_to_env::leading_ws_bytes(dash_line(d, x)) == 2 * d,
        trim_start(seq![' '] + x) == x,
        crate::yaml_to_env::leading_ws_bytes(seq![' '] + x) == 1,
        (seq!['-', ' '] + x).drop_first() == seq![' '] + x,
{
    let y = seq!['-', ' '] + x;
    assert(dash_line(d, x) =~= indent(d) + y);
    assert(y.last() == x.last());
    lemma_trim_shape(d, y);
    let z = seq![' '] + x;
    assert(z[1] == x[0]);
    lemma_ws_run_end_at(z, 1);
    assert(z.skip(1) =~= x);
    assert(z.take(1) =~= seq![' ']);
    crate::text::lemma_byte_len_single(' ');
    assert(y.drop_first() =~= z);
}

proof fn lemma_step_dash_leaf(st: FlatModel, base: Seq<FrameModel>, d: nat, v: Seq<char>)
    requires
        frames_ok(st, base, d),
        base_below(base, d),
        plain_value(v),
        !is_mapping_item(v),
    ensures
        step(st, dash_line(d, v)) == (
            numbered(st, base),
            Some(
                assignment(
                    env_name(numbered(st, base).stack, decimal(item_index(st, base))),
                    v,
                ),
            ),
        ),
{
    lemma_dash_shape(d, v);
    lemma_pop_to_base(st, base, d);
}

proof fn lemma_pop_to_top_below(stack: Seq<FrameModel>, ind: nat)
    requires
        stack.len() > 0,
        stack.last().indent < ind,
    ensures
        crate::yaml_to_env::pop_to(stack, ind) == stack,
{
}

/// A `- ` line whose item is a mapping does what numbering the item,
/// opening it, and then reading its first line one level deeper does.
proof fn lemma_step_dash_map(st: FlatModel, base: Seq<FrameModel>, d: nat, x: Seq<char>)
    requires
        frames_ok(st, base, d),
        base_below(base, d),
        x.len() > 0,
        !is_ws(x[0]),
        !is_ws(x.last()),
        x[0] != '-',
        x[0] != '#',
        is_mapping_item(x),
    ensures
        step(st, dash_line(d, x)) == step(
            FlatModel {
                stack: numbered(st, base).stack.push(
                    FrameModel { indent: 2 * d, name: decimal(item_index(st, base)), seq_next: None },
                ),
                root_next: numbered(st, base).root_next,
            },
            indent(d + 1) + x,
        ),
{
    lemma_dash_shape(d, x);
    lemma_pop_to_base(st, base, d);
    lemma_trim_shape(d + 1, x);
    let st_i = FlatModel {
        stack: numbered(st, base).stack.push(
            FrameModel { indent: 2 * d, name: decimal(item_index(st, base)), seq_next: None },
        ),
        root_next: numbered(st, base).root_next,
    };
    lemma_pop_to_top_below(st_i.stack, 2 * (d + 1));
}

pub open spec fn opt_line(o: Option<Seq<char>>) -> Seq<Seq<char>> {
    match o {
        Some(a) => seq![a],
        None => Seq::empty(),
    }
}

proof fn lemma_run_append(st: FlatModel, a: Seq<Seq<char>>, b: Seq<Seq<char>>)
    ensures
        run(st, a + b) == (run(run(st, a).0, b).0, run(st, a).1 + run(run(st, a).0, b).1),
    decreases b.len(),
{
    if b.len() == 0 {
        assert(a + b =~= a);
        assert(run(st, a).1 + Seq::<Seq<char>>::empty() =~= run(st, a).1);
    } else {
        lemma_run_append(st, a, b.drop_last());
        assert((a + b).drop_last() =~= a + b.drop_last());
        assert((a + b).last() == b.last());
        let mid = run(st, a);
        let r1 = run(mid.0, b.drop_last());
        match step(r1.0, b.last()).1 {
            Some(o) => {
                assert(mid.1 + r1.1.push(o) =~= (mid.1 + r1.1).push(o));
            },
            None => {},
        }
    }
}

proof fn lemma_run_cons(st: FlatModel, l: Seq<char>, rest: Seq<Seq<char>>)
    ensures
        run(st, seq![l] + rest) == (
            run(step(st, l).0, rest).0,
            opt_line(step(st, l).1) + run(step(st, l).0, rest).1,
        ),
{
    lemma_run_append(st, seq![l], rest);
    assert(seq![l].drop_last() =~= Seq::<Seq<char>>::empty());
    assert(run(st, Seq::<Seq<char>>::empty()) == (st, Seq::<Seq<char>>::empty()));
    match step(st, l).1 {
        Some(o) => {
            assert(Seq::<Seq<char>>::empty().push(o) =~= seq![o]);
        },
        None => {},
    }
}


/// The scalars of a group in document order, each with its full path.
pub open spec fn leaves_from(c: Seq<(Seq<char>, Tree)>, path: Seq<Seq<char>>, i: int) -> Seq<
    (Seq<Seq<char>>, Seq<char>),
>
    decreases c, c.len() - i,
{
    if i < 0 || i >= c.len() {
        Seq::empty()
    } else {
        let rest = leaves_from(c, path, i + 1);
        match c[i].1 {
            Tree::Leaf(v) => seq![(path.push(c[i].0), v)] + rest,
            Tree::Branch(sub) => {
                proof {
                    assert(decreases_to!(c => c[i]));
                }
                leaves_from(sub, path.push(c[i].0), 0) + rest
            },
        }
    }
}

/// The scalars of a whole tree.
pub open spec fn tree_leaves(c: Seq<(Seq<char>, Tree)>) -> Seq<(Seq<Seq<char>>, Seq<char>)> {
    leaves_from(c, Seq::empty(), 0)
}

/// The `KEY=VALUE` line of one scalar.
pub open spec fn env_line(leaf: (Seq<Seq<char>>, Seq<char>)) -> Seq<char> {
    assignment(env_key(leaf.0.drop_last(), leaf.0.last()), leaf.1)
}

pub open spec fn env_lines(ls: Seq<(Seq<Seq<char>>, Seq<char>)>) -> Seq<Seq<char>> {
    ls.map_values(|l: (Seq<Seq<char>>, Seq<char>)| env_line(l))
}

/// The env file of a tree: one line per scalar, in document order.
pub open spec fn env_text(c: Seq<(Seq<char>, Tree)>) -> Seq<char> {
    terminated_text(env_lines(tree_leaves(c)))
}

proof fn lemma_env_lines_append(a: Seq<(Seq<Seq<char>>, Seq<char>)>, b: Seq<(Seq<Seq<char>>, Seq<char>)>)
    ensures
        env_lines(a + b) == env_lines(a) + env_lines(b),
{
    assert(env_lines(a + b) =~= env_lines(a) + env_lines(b));
}

/// `base` with the index of the next item of its top set to `i`.
pub open spec fn cur_base(base: Seq<FrameModel>, i: nat) -> Seq<FrameModel> {
    if base.len() > 0 && i > 0 {
        base.update(
            base.len() - 1,
            FrameModel { indent: base.last().indent, name: base.last().name, seq_next: Some(i) },
        )
    } else {
        base
    }
}

proof fn lemma_cur_base_shape(base: Seq<FrameModel>, i: nat, d: nat)
    requires
        base_below(base, d),
    ensures
        base_below(cur_base(base, i), d),
        frame_names(cur_base(base, i)) == frame_names(base),
        cur_base(base, i).len() == base.len(),
        forall|j: int| 0 <= j < base.len() ==> #[trigger] cur_base(base, i)[j].indent == base[j].indent,
{
    assert(frame_names(cur_base(base, i)) =~= frame_names(base));
}

proof fn lemma_cur_base(base: Seq<FrameModel>, i: nat, d: nat, st: FlatModel)
    requires
        base_below(base, d),
        base.len() > 0 ==> base.last().seq_next is None,
        base.len() == 0 ==> st.root_next == i,
    ensures
        item_index(st, cur_base(base, i)) == i,
        numbered(st, cur_base(base, i)).stack == cur_base(base, i + 1),
        base.len() == 0 ==> numbered(st, cur_base(base, i)).root_next == i + 1,
        base.len() > 0 ==> numbered(st, cur_base(base, i)).root_next == st.root_next,
{
    if base.len() > 0 {
        assert(numbered(st, cur_base(base, i)).stack =~= cur_base(base, i + 1));
    }
}

/// Forgetting the top parents of `b2` that sit at depth `d` or deeper.
proof fn lemma_frames_ok_weaken(st: FlatModel, b2: Seq<FrameModel>, d2: nat, b: Seq<FrameModel>, d: nat)
    requires
        frames_ok(st, b2, d2),
        d <= d2,
        b.len() <= b2.len(),
        b2.take(b.len() as int) == b,
        forall|j: int| b.len() <= j < b2.len() ==> #[trigger] b2[j].indent >= 2 * d,
    ensures
        frames_ok(st, b, d),
{
    assert(st.stack.take(b.len() as int) =~= b) by {
        assert forall|j: int| 0 <= j < b.len() implies st.stack[j] == b[j] by {
            assert(st.stack.take(b2.len() as int)[j] == b2[j]);
            assert(b2.take(b.len() as int)[j] == b[j]);
        }
    }
    assert forall|j: int| b.len() <= j < st.stack.len() implies #[trigger] st.stack[j].indent >= 2 * d by {
        if j < b2.len() {
            assert(st.stack.take(b2.len() as int)[j] == b2[j]);
            assert(b2[j].indent >= 2 * d);
        }
    }
}

/// Reading a canonical group's YAML lines writes the `KEY=VALUE` lines of
/// its scalars.
proof fn lemma_run_group(c: Seq<(Seq<char>, Tree)>, d: nat, st: FlatModel, base: Seq<FrameModel>)
    requires
        canonical(c),
        frames_ok(st, base, d),
        base_below(base, d),
        base.len() > 0 ==> base.last().seq_next is None,
        base.len() == 0 ==> st.root_next == 0,
    ensures
        run(st, group_lines(c, d)).1 == env_lines(leaves_from(c, frame_names(base), 0)),
        frames_ok(
            run(st, group_lines(c, d)).0,
            if is_seq_group(c) {
                cur_base(base, c.len())
            } else {
                base
            },
            d,
        ),
        run(st, group_lines(c, d)).0.root_next == if is_seq_group(c) && base.len() == 0 {
            c.len()
        } else {
            st.root_next
        },
    decreases c, c.len() + 1,
{
    if is_seq_group(c) {
        lemma_run_seq_from(c, d, 0, st, base);
    } else {
        lemma_run_map_from(c, d, 0, st, base);
    }
}

#[verifier::spinoff_prover]
#[verifier::rlimit(40)]
proof fn lemma_run_map_from(c: Seq<(Seq<char>, Tree)>, d: nat, i: int, st: FlatModel, base: Seq<FrameModel>)
    requires
        canonical(c),
        0 <= i <= c.len(),
        frames_ok(st, base, d),
        base_below(base, d),
    ensures
        run(st, map_lines_from(c, d, i)).1 == env_lines(leaves_from(c, frame_names(base), i)),
        frames_ok(run(st, map_lines_from(c, d, i)).0, base, d),
        run(st, map_lines_from(c, d, i)).0.root_next == st.root_next,
    decreases c, c.len() - i,
{
    if i >= c.len() {
        assert(env_lines(Seq::<(Seq<Seq<char>>, Seq<char>)>::empty()) =~= Seq::<Seq<char>>::empty());
        return;
    }
    let k = c[i].0;
    let names = frame_names(base);
    assert(plain_key(k));
    let rest_leaves = leaves_from(c, names, i + 1);
    match c[i].1 {
        Tree::Leaf(v) => {
            assert(plain_value(v));
            let l = leaf_line(d, k, v);
            let rest = map_lines_from(c, d, i + 1);
            lemma_step_leaf(st, base, d, k, v);
            let s1 = FlatModel { stack: base, root_next: st.root_next };
            assert(s1.stack.take(base.len() as int) =~= base);
            lemma_run_map_from(c, d, i + 1, s1, base);
            lemma_run_cons(st, l, rest);
            assert(map_lines_from(c, d, i) == seq![l] + rest);
            lemma_env_name(base, k);
            assert(names.push(k).drop_last() =~= names);
            lemma_env_lines_append(seq![(names.push(k), v)], rest_leaves);
            assert(env_lines(seq![(names.push(k), v)]) =~= seq![env_line((names.push(k), v))]);
        },
        Tree::Branch(sub) => {
            assert(canonical(sub));
            assert(decreases_to!(c => c[i]));
            let l = key_line(d, k);
            let g = group_lines(sub, d + 1);
            let rest = map_lines_from(c, d, i + 1);
            lemma_step_key(st, base, d, k);
            let kf = FrameModel { indent: 2 * d, name: k, seq_next: None };
            let base1 = base.push(kf);
            let s1 = FlatModel { stack: base1, root_next: st.root_next };
            assert(s1.stack.take(base1.len() as int) =~= base1);
            assert(base_below(base1, d + 1));
            lemma_run_group(sub, d + 1, s1, base1);
            let s2 = run(s1, g).0;
            let b2 = if is_seq_group(sub) {
                cur_base(base1, sub.len())
            } else {
                base1
            };
            assert(b2.take(base.len() as int) =~= base);
            assert(b2[base.len() as int].indent == 2 * d);
            lemma_frames_ok_weaken(s2, b2, d + 1, base, d);
            lemma_run_map_from(c, d, i + 1, s2, base);
            lemma_run_cons(st, l, g + rest);
            lemma_run_append(s1, g, rest);
            assert(map_lines_from(c, d, i) =~= seq![l] + (g + rest));
            assert(frame_names(base1) =~= names.push(k));
            lemma_env_lines_append(leaves_from(sub, names.push(k), 0), rest_leaves);
            assert(opt_line(None) + (run(s1, g).1 + run(s2, rest).1) =~= run(s1, g).1 + run(s2, rest).1);
        },
    }
}

#[verifier::spinoff_prover]
#[verifier::rlimit(40)]
proof fn lemma_run_seq_from(c: Seq<(Seq<char>, Tree)>, d: nat, i: int, st: FlatModel, base: Seq<FrameModel>)
    requires
        canonical(c),
        is_seq_group(c),
        0 <= i <= c.len(),
        base_below(base, d),
        base.len() > 0 ==> base.last().seq_next is None,
        frames_ok(st, cur_base(base, i as nat), d),
        base.len() == 0 ==> st.root_next == i,
    ensures
        run(st, seq_lines_from(c, d, i)).1 == env_lines(leaves_from(c, frame_names(base), i)),
        frames_ok(run(st, seq_lines_from(c, d, i)).0, cur_base(base, c.len()), d),
        base.len() == 0 ==> run(st, seq_lines_from(c, d, i)).0.root_next == c.len(),
        base.len() > 0 ==> run(st, seq_lines_from(c, d, i)).0.root_next == st.root_next,
    decreases c, c.len() - i,
{
    if i >= c.len() {
        assert(env_lines(Seq::<(Seq<Seq<char>>, Seq<char>)>::empty()) =~= Seq::<Seq<char>>::empty());
        return;
    }
    let names = frame_names(base);
    let cb = cur_base(base, i as nat);
    lemma_cur_base(base, i as nat, d, st);
    lemma_cur_base_shape(base, i as nat, d);
    let cb1 = cur_base(base, (i + 1) as nat);
    lemma_cur_base_shape(base, (i + 1) as nat, d);
    assert(c[i].0 == decimal(i as nat));
    let k = c[i].0;
    let rest_leaves = leaves_from(c, names, i + 1);
    let rest = seq_lines_from(c, d, i + 1);
    let s1 = numbered(st, cb);
    match c[i].1 {
        Tree::Leaf(v) => {
            assert(plain_value(v));
            assert(!is_mapping_item(v));
            let l = dash_line(d, v);
            lemma_step_dash_leaf(st, cb, d, v);
            assert(s1.stack.take(cb1.len() as int) =~= cb1);
            lemma_run_seq_from(c, d, i + 1, s1, base);
            lemma_run_cons(st, l, rest);
            assert(seq_lines_from(c, d, i) == seq![l] + rest);
            lemma_env_name(cb1, k);
            assert(names.push(k).drop_last() =~= names);
            lemma_env_lines_append(seq![(names.push(k), v)], rest_leaves);
            assert(env_lines(seq![(names.push(k), v)]) =~= seq![env_line((names.push(k), v))]);
        },
        Tree::Branch(sub) => {
            assert(canonical(sub));
            assert(!is_seq_group(sub));
            assert(decreases_to!(c => c[i]));
            lemma_seq_item_run(sub, d, i as nat, st, cb, cb1, s1);
            let it = item_lines(sub, d);
            let s2 = run(st, it).0;
            lemma_run_seq_from(c, d, i + 1, s2, base);
            lemma_run_append(st, it, rest);
            assert(seq_lines_from(c, d, i) == it + rest);
            assert(frame_names(cb1).push(k) =~= names.push(k));
            lemma_env_lines_append(leaves_from(sub, names.push(k), 0), rest_leaves);
        },
    }
}


/// Reading the lines of a mapping written as a sequence item.
#[verifier::spinoff_prover]
#[verifier::rlimit(40)]
proof fn lemma_seq_item_run(
    sub: Seq<(Seq<char>, Tree)>,
    d: nat,
    i: nat,
    st: FlatModel,
    cb: Seq<FrameModel>,
    cb1: Seq<FrameModel>,
    s1: FlatModel,
)
    requires
        canonical(sub),
        !is_seq_group(sub),
        frames_ok(st, cb, d),
        base_below(cb, d),
        base_below(cb1, d),
        s1 == numbered(st, cb),
        s1.stack == cb1,
        item_index(st, cb) == i,
    ensures
        run(st, item_lines(sub, d)).1 == env_lines(
            leaves_from(sub, frame_names(cb1).push(decimal(i)), 0),
        ),
        frames_ok(run(st, item_lines(sub, d)).0, cb1, d),
        run(st, item_lines(sub, d)).0.root_next == s1.root_next,
    decreases sub, sub.len() + 2,
{
    let ls = group_lines(sub, d + 1);
    assert(ls == map_lines_from(sub, d + 1, 0));
    let k0 = sub[0].0;
    assert(plain_key(k0));
    lemma_plain_key_no_newline(k0);
    lemma_key_no_colon(k0);
    let x = ls[0].skip(2 * (d + 1) as int);
    match sub[0].1 {
        Tree::Leaf(v0) => {
            assert(plain_value(v0));
            assert(ls[0] == leaf_line(d + 1, k0, v0));
            assert(x =~= k0 + seq![':', ' '] + v0);
            lemma_key_value_leaf(k0, v0);
            assert(x.last() == v0.last());
        },
        Tree::Branch(_) => {
            assert(ls[0] == key_line(d + 1, k0));
            assert(x =~= k0 + seq![':']);
            lemma_key_value_key(k0);
        },
    }
    assert(x[0] == k0[0]);
    assert(ls[0] =~= indent(d + 1) + x);
    let item = FrameModel { indent: 2 * d, name: decimal(i), seq_next: None };
    let base_i = cb1.push(item);
    let st_i = FlatModel { stack: base_i, root_next: s1.root_next };
    lemma_step_dash_map(st, cb, d, x);
    let it = item_lines(sub, d);
    assert(it == seq![dash_line(d, x)] + ls.drop_first());
    lemma_run_cons(st, dash_line(d, x), ls.drop_first());
    assert(ls =~= seq![ls[0]] + ls.drop_first());
    lemma_run_cons(st_i, ls[0], ls.drop_first());
    assert(run(st, it) == run(st_i, ls));
    assert(st_i.stack.take(base_i.len() as int) =~= base_i);
    assert(base_below(base_i, d + 1));
    lemma_run_map_from(sub, d + 1, 0, st_i, base_i);
    let s2 = run(st_i, ls).0;
    assert(base_i.take(cb1.len() as int) =~= cb1);
    lemma_frames_ok_weaken(s2, base_i, d + 1, cb1, d);
    assert(frame_names(base_i) =~= frame_names(cb1).push(decimal(i)));
}


proof fn lemma_case_round_trip(c: char)
    requires
        is_key_char(c),
    ensures
        ascii_lower(ascii_upper(c)) == c,
        (ascii_upper(c) as u32) < 128,
        ascii_upper(c) == env_char(c),
        (env_char(c) == '_') == (c == '_'),
        !is_ws(env_char(c)),
        env_char(c) != '#',
        env_char(c) != '=',
        env_char(c) != '\n',
{
}


/// Reading back the YAML that `env_to_yaml` writes for a canonical tree
/// gives exactly the tree's `KEY=VALUE` lines.
pub proof fn lemma_flatten_of_render(c: Seq<(Seq<char>, Tree)>)
    requires
        canonical_root(c),
    ensures
        flatten_text(render_group(c, 0)) == env_text(c),
{
    if c.len() == 0 {
        assert(!is_seq_group(c));
        assert(render_group(c, 0) == Seq::<char>::empty());
        assert(lines(Seq::<char>::empty()) == Seq::<Seq<char>>::empty());
        assert(env_lines(tree_leaves(c)) =~= Seq::<Seq<char>>::empty());
    } else {
        lemma_render_group(c, 0);
        lemma_lines_terminated(group_lines(c, 0));
        let st = initial_model();
        let base = Seq::<FrameModel>::empty();
        assert(st.stack.take(0) =~= base);
        lemma_run_group(c, 0, st, base);
        assert(frame_names(base) =~= Seq::<Seq<char>>::empty());
    }
}

// ---------------------------------------------------------------------
// Reading a tree's KEY=VALUE lines rebuilds the tree
// ---------------------------------------------------------------------

/// The tree after inserting the scalars `ls` one after the other.
pub open spec fn fold_insert(c: Seq<(Seq<char>, Tree)>, ls: Seq<(Seq<Seq<char>>, Seq<char>)>) -> Seq<
    (Seq<char>, Tree),
>
    decreases ls.len(),
{
    if ls.len() == 0 {
        c
    } else {
        crate::env_to_yaml::tree_insert(fold_insert(c, ls.drop_last()), ls.last().0, ls.last().1)
    }
}

proof fn lemma_fold_append(
    c: Seq<(Seq<char>, Tree)>,
    a: Seq<(Seq<Seq<char>>, Seq<char>)>,
    b: Seq<(Seq<Seq<char>>, Seq<char>)>,
)
    ensures
        fold_insert(c, a + b) == fold_insert(fold_insert(c, a), b),
    decreases b.len(),
{
    if b.len() == 0 {
        assert(a + b =~= a);
    } else {
        lemma_fold_append(c, a, b.drop_last());
        assert((a + b).drop_last() =~= a + b.drop_last());
    }
}

/// Every scalar with its path moved under `p`.
pub open spec fn shift(p: Seq<Seq<char>>, ls: Seq<(Seq<Seq<char>>, Seq<char>)>) -> Seq<
    (Seq<Seq<char>>, Seq<char>),
> {
    ls.map_values(|e: (Seq<Seq<char>>, Seq<char>)| (p + e.0, e.1))
}

proof fn lemma_leaves_shift(c: Seq<(Seq<char>, Tree)>, p: Seq<Seq<char>>, i: int)
    requires
        0 <= i <= c.len(),
    ensures
        leaves_from(c, p, i) == shift(p, leaves_from(c, Seq::empty(), i)),
    decreases c, c.len() - i,
{
    if i >= c.len() {
        assert(shift(p, Seq::<(Seq<Seq<char>>, Seq<char>)>::empty()) =~= Seq::<(Seq<Seq<char>>, Seq<char>)>::empty());
        return;
    }
    lemma_leaves_shift(c, p, i + 1);
    let k = c[i].0;
    let e: Seq<Seq<char>> = Seq::empty();
    match c[i].1 {
        Tree::Leaf(v) => {
            assert(p + e.push(k) =~= p.push(k));
            assert(leaves_from(c, p, i) =~= shift(p, leaves_from(c, e, i)));
        },
        Tree::Branch(sub) => {
            assert(decreases_to!(c => c[i]));
            lemma_leaves_shift(sub, p.push(k), 0);
            lemma_leaves_shift(sub, e.push(k), 0);
            let l0 = leaves_from(sub, e, 0);
            assert(shift(p, shift(e.push(k), l0)) =~= shift(p.push(k), l0)) by {
                assert forall|t: int| 0 <= t < l0.len() implies p + (e.push(k) + l0[t].0) =~= p.push(k) + l0[t].0 by {}
            }
            assert(leaves_from(c, p, i) =~= shift(p, leaves_from(c, e, i)));
        },
    }
}

/// The scalars of a canonical group: at least one, each on a path that
/// goes one key deeper than where the group stands.
#[verifier::spinoff_prover]
#[verifier::rlimit(40)]
proof fn lemma_leaves_shape(c: Seq<(Seq<char>, Tree)>, p: Seq<Seq<char>>, i: int)
    requires
        canonical(c),
        0 <= i <= c.len(),
    ensures
        i < c.len() ==> leaves_from(c, p, i).len() > 0,
        forall|t: int|
            0 <= t < leaves_from(c, p, i).len() ==> (#[trigger] leaves_from(c, p, i)[t]).0.len() > p.len()
                && leaves_from(c, p, i)[t].0.take(p.len() as int) == p,
    decreases c, c.len() - i,
{
    if i >= c.len() {
        return;
    }
    lemma_leaves_shape(c, p, i + 1);
    let k = c[i].0;
    let rest = leaves_from(c, p, i + 1);
    match c[i].1 {
        Tree::Leaf(v) => {
            let l = leaves_from(c, p, i);
            assert forall|t: int| 0 <= t < l.len() implies (#[trigger] l[t]).0.len() > p.len() && l[t].0.take(p.len() as int) == p by {
                if t == 0 {
                    assert(p.push(k).take(p.len() as int) =~= p);
                } else {
                    assert(l[t] == rest[t - 1]);
                }
            }
        },
        Tree::Branch(sub) => {
            assert(canonical(sub));
            assert(decreases_to!(c => c[i]));
            lemma_leaves_shape(sub, p.push(k), 0);
            let a = leaves_from(sub, p.push(k), 0);
            let l = leaves_from(c, p, i);
            assert(l == a + rest);
            assert forall|t: int| 0 <= t < l.len() implies (#[trigger] l[t]).0.len() > p.len() && l[t].0.take(p.len() as int) == p by {
                if t < a.len() {
                    assert(l[t] == a[t]);
                    assert(a[t].0.take(p.len() as int + 1) == p.push(k));
                    assert(a[t].0.take(p.len() as int) =~= p.push(k).take(p.len() as int));
                    assert(p.push(k).take(p.len() as int) =~= p);
                } else {
                    assert(l[t] == rest[t - a.len()]);
                }
            }
        },
    }
}

/// `k` is no child's key in `h`.
pub open spec fn fresh_key(h: Seq<(Seq<char>, Tree)>, k: Seq<char>) -> bool {
    forall|t: int| 0 <= t < h.len() ==> #[trigger] h[t].0 != k
}

/// Inserting scalars that all sit under the fresh key `k` adds one group
/// `k` holding what those scalars build on their own.
#[verifier::spinoff_prover]
#[verifier::rlimit(40)]
proof fn lemma_fold_under_key(
    h: Seq<(Seq<char>, Tree)>,
    k: Seq<char>,
    ls: Seq<(Seq<Seq<char>>, Seq<char>)>,
)
    requires
        fresh_key(h, k),
        ls.len() > 0,
        forall|t: int| 0 <= t < ls.len() ==> (#[trigger] ls[t]).0.len() > 0,
    ensures
        fold_insert(h, shift(seq![k], ls)) == h.push(
            (k, Tree::Branch(fold_insert(Seq::empty(), ls))),
        ),
    decreases ls.len(),
{
    let e = ls.last();
    let q = e.0;
    let path = seq![k] + q;
    assert(path[0] == k);
    assert(path.drop_first() =~= q);
    assert(shift(seq![k], ls).drop_last() =~= shift(seq![k], ls.drop_last()));
    assert(shift(seq![k], ls).last() == (path, e.1));
    lemma_key_index_from(h, k, 0);
    assert(key_index_from(h, k, 0) is None) by {
        match key_index_from(h, k, 0) {
            Some(j) => {
                assert(h[j].0 == k);
            },
            None => {},
        }
    }
    assert(ls.last().0.len() > 0);
    assert(fold_insert(h, shift(seq![k], ls)) == crate::env_to_yaml::tree_insert(
        fold_insert(h, shift(seq![k], ls.drop_last())),
        path,
        e.1,
    ));
    assert(fold_insert(Seq::empty(), ls) == crate::env_to_yaml::tree_insert(
        fold_insert(Seq::empty(), ls.drop_last()),
        q,
        e.1,
    ));
    if ls.len() == 1 {
        assert(ls.drop_last() =~= Seq::<(Seq<Seq<char>>, Seq<char>)>::empty());
        assert(shift(seq![k], ls.drop_last()) =~= Seq::<(Seq<Seq<char>>, Seq<char>)>::empty());
    } else {
        assert forall|t: int| 0 <= t < ls.drop_last().len() implies (#[trigger] ls.drop_last()[t]).0.len() > 0 by {
            assert(ls.drop_last()[t] == ls[t]);
        }
        lemma_fold_under_key(h, k, ls.drop_last());
        let h2 = h.push((k, Tree::Branch(fold_insert(Seq::empty(), ls.drop_last()))));
        lemma_key_index_from(h2, k, 0);
        assert(h2[h.len() as int].0 == k);
        assert(key_index_from(h2, k, 0) == Some(h.len() as int)) by {
            match key_index_from(h2, k, 0) {
                Some(j) => {
                    if j < h.len() {
                        assert(h2[j] == h[j]);
                    }
                },
                None => {},
            }
        }
        assert(h2.update(h.len() as int, (k, Tree::Branch(fold_insert(Seq::empty(), ls)))) =~= h.push(
            (k, Tree::Branch(fold_insert(Seq::empty(), ls))),
        ));
    }
}

/// Inserting the scalars of a canonical group, in order, after other
/// children with different keys, appends the group's children.
#[verifier::spinoff_prover]
#[verifier::rlimit(40)]
proof fn lemma_fold_leaves(h: Seq<(Seq<char>, Tree)>, c: Seq<(Seq<char>, Tree)>, i: int)
    requires
        canonical(c),
        0 <= i <= c.len(),
        forall|j: int| i <= j < c.len() ==> fresh_key(h, #[trigger] c[j].0),
    ensures
        fold_insert(h, leaves_from(c, Seq::empty(), i)) == h + c.skip(i),
    decreases c, c.len() - i,
{
    let e: Seq<Seq<char>> = Seq::empty();
    if i >= c.len() {
        assert(h + c.skip(i) =~= h);
        return;
    }
    let k = c[i].0;
    assert(fresh_key(h, k));
    let rest = leaves_from(c, e, i + 1);
    lemma_key_index_from(h, k, 0);
    let h2 = h.push(c[i]);
    assert forall|j: int| i + 1 <= j < c.len() implies fresh_key(h2, #[trigger] c[j].0) by {
        assert(fresh_key(h, c[j].0));
        assert(c[i].0 != c[j].0);
        assert forall|t: int| 0 <= t < h2.len() implies #[trigger] h2[t].0 != c[j].0 by {
            if t < h.len() {
                assert(h2[t] == h[t]);
            }
        }
    }
    match c[i].1 {
        Tree::Leaf(v) => {
            let first = seq![(e.push(k), v)];
            assert(leaves_from(c, e, i) == first + rest);
            lemma_fold_append(h, first, rest);
            assert(first.drop_last() =~= Seq::<(Seq<Seq<char>>, Seq<char>)>::empty());
            assert(e.push(k).drop_first() =~= e);
            assert(e.push(k)[0] == k);
            assert(key_index_from(h, k, 0) is None) by {
                match key_index_from(h, k, 0) {
                    Some(j) => {
                        assert(h[j].0 == k);
                    },
                    None => {},
                }
            }
            assert(first.last() == (e.push(k), v));
            assert(fold_insert(h, Seq::<(Seq<Seq<char>>, Seq<char>)>::empty()) == h);
            assert(fold_insert(h, first) == crate::env_to_yaml::tree_insert(h, e.push(k), v));
            assert(fold_insert(h, first) == h2);
            lemma_fold_leaves(h2, c, i + 1);
            assert(h2 + c.skip(i + 1) =~= h + c.skip(i));
        },
        Tree::Branch(sub) => {
            assert(canonical(sub));
            assert(decreases_to!(c => c[i]));
            let l0 = leaves_from(sub, e, 0);
            lemma_leaves_shift(sub, e.push(k), 0);
            assert(e.push(k) =~= seq![k]);
            lemma_leaves_shape(sub, e, 0);
            assert forall|t: int| 0 <= t < l0.len() implies (#[trigger] l0[t]).0.len() > 0 by {}
            lemma_fold_under_key(h, k, l0);
            lemma_fold_leaves(Seq::empty(), sub, 0);
            assert(Seq::<(Seq<char>, Tree)>::empty() + sub.skip(0) =~= sub);
            assert(forall|j: int| 0 <= j < sub.len() ==> fresh_key(Seq::<(Seq<char>, Tree)>::empty(), #[trigger] sub[j].0));
            assert(leaves_from(c, e, i) == leaves_from(sub, e.push(k), 0) + rest);
            lemma_fold_append(h, leaves_from(sub, e.push(k), 0), rest);
            lemma_fold_leaves(h2, c, i + 1);
            assert(h2 + c.skip(i + 1) =~= h + c.skip(i));
        },
    }
}


pub open spec fn no_dunder(w: Seq<char>) -> bool {
    forall|i: int| 0 <= i < w.len() - 1 ==> !(#[trigger] w[i] == '_' && w[i + 1] == '_')
}

proof fn lemma_split_word(w: Seq<char>, r: Seq<char>, cur: Seq<char>)
    requires
        no_dunder(w),
        w.len() == 0 || w.last() != '_',
    ensures
        crate::env_to_yaml::split_dunder_from(w + seq!['_', '_'] + r, cur) == seq![cur + w]
            + crate::env_to_yaml::split_dunder_from(r, Seq::empty()),
    decreases w.len(),
{
    let s = w + seq!['_', '_'] + r;
    if w.len() == 0 {
        assert(s.skip(2) =~= r);
        assert(cur + w =~= cur);
    } else {
        assert(s[0] == w[0]);
        if w.len() >= 2 {
            assert(s[1] == w[1]);
        } else {
            assert(s[1] == '_');
            assert(w[0] == w.last());
        }
        assert(s.drop_first() =~= w.drop_first() + seq!['_', '_'] + r);
        let w2 = w.drop_first();
        assert(no_dunder(w2)) by {
            assert forall|i: int| 0 <= i < w2.len() - 1 implies !(#[trigger] w2[i] == '_' && w2[i + 1] == '_') by {
                assert(w2[i] == w[i + 1]);
                assert(w2[i + 1] == w[i + 2]);
            }
        }
        if w2.len() > 0 {
            assert(w2.last() == w.last());
        }
        lemma_split_word(w2, r, cur.push(w[0]));
        assert(cur.push(w[0]) + w2 =~= cur + w);
    }
}

proof fn lemma_split_last(w: Seq<char>, cur: Seq<char>)
    requires
        no_dunder(w),
    ensures
        crate::env_to_yaml::split_dunder_from(w, cur) == seq![cur + w],
    decreases w.len(),
{
    if w.len() == 0 {
        assert(cur + w =~= cur);
    } else {
        let w2 = w.drop_first();
        assert(no_dunder(w2)) by {
            assert forall|i: int| 0 <= i < w2.len() - 1 implies !(#[trigger] w2[i] == '_' && w2[i + 1] == '_') by {
                assert(w2[i] == w[i + 1]);
                assert(w2[i + 1] == w[i + 2]);
            }
        }
        lemma_split_last(w2, cur.push(w[0]));
        assert(cur.push(w[0]) + w2 =~= cur + w);
    }
}

proof fn lemma_prefix_join_cons(x: Seq<char>, p: Seq<Seq<char>>)
    ensures
        prefix_join(seq![x] + p) == x + seq!['_', '_'] + prefix_join(p),
    decreases p.len(),
{
    if p.len() == 0 {
        assert(seq![x] + p =~= seq![x]);
        assert(seq![x].drop_last() =~= Seq::<Seq<char>>::empty());
        assert(prefix_join(Seq::<Seq<char>>::empty()) == Seq::<char>::empty());
        assert(seq![x].last() == x);
        assert(prefix_join(seq![x]) =~= x + seq!['_', '_'] + prefix_join(p));
    } else {
        lemma_prefix_join_cons(x, p.drop_last());
        assert((seq![x] + p).drop_last() =~= seq![x] + p.drop_last());
        assert(prefix_join(seq![x] + p) =~= x + seq!['_', '_'] + prefix_join(p));
    }
}

/// A word that `split("__")` keeps whole between separators.
pub open spec fn split_word(w: Seq<char>) -> bool {
    no_dunder(w) && w.len() > 0 && w.last() != '_'
}

proof fn lemma_split_joined(q: Seq<Seq<char>>, w: Seq<char>)
    requires
        forall|t: int| 0 <= t < q.len() ==> split_word(#[trigger] q[t]),
        no_dunder(w),
    ensures
        crate::env_to_yaml::split_dunder(prefix_join(q) + w) == q.push(w),
    decreases q.len(),
{
    if q.len() == 0 {
        assert(prefix_join(q) + w =~= w);
        lemma_split_last(w, Seq::empty());
        assert(Seq::<char>::empty() + w =~= w);
        assert(q.push(w) =~= seq![w]);
    } else {
        let q2 = q.drop_first();
        assert(q =~= seq![q[0]] + q2);
        lemma_prefix_join_cons(q[0], q2);
        assert(prefix_join(q) + w =~= q[0] + seq!['_', '_'] + (prefix_join(q2) + w));
        assert(split_word(q[0]));
        lemma_split_word(q[0], prefix_join(q2) + w, Seq::empty());
        assert forall|t: int| 0 <= t < q2.len() implies split_word(#[trigger] q2[t]) by {
            assert(q2[t] == q[t + 1]);
        }
        lemma_split_joined(q2, w);
        assert(Seq::<char>::empty() + q[0] =~= q[0]);
        assert(seq![q[0]] + q2.push(w) =~= q.push(w));
    }
}

pub open spec fn upw(s: Seq<char>) -> Seq<char> {
    s.map_values(|c: char| env_char(c))
}

proof fn lemma_prefix_join_map(p: Seq<Seq<char>>)
    ensures
        upw(prefix_join(p)) == prefix_join(p.map_values(|s: Seq<char>| upw(s))),
    decreases p.len(),
{
    if p.len() > 0 {
        lemma_prefix_join_map(p.drop_last());
        assert(p.map_values(|s: Seq<char>| upw(s)).drop_last() =~= p.drop_last().map_values(
            |s: Seq<char>| upw(s),
        ));
        assert(upw(prefix_join(p)) =~= prefix_join(p.map_values(|s: Seq<char>| upw(s))));
    } else {
        assert(upw(prefix_join(p)) =~= Seq::<char>::empty());
    }
}

/// Upper-casing a plain key keeps it a word that `split("__")` keeps,
/// and lower-casing brings it back.
proof fn lemma_plain_key_upw(k: Seq<char>)
    requires
        plain_key(k),
    ensures
        no_dunder(upw(k)),
        upw(k).len() > 0,
        k.last() != '_' ==> split_word(upw(k)),
        crate::env_to_yaml::lowered(upw(k)) == k,
        forall|j: int| 0 <= j < upw(k).len() ==> !is_ws(#[trigger] upw(k)[j]) && upw(k)[j] != '#'
            && upw(k)[j] != '=' && upw(k)[j] != '\n',
{
    let u = upw(k);
    assert forall|j: int| 0 <= j < u.len() implies !is_ws(#[trigger] u[j]) && u[j] != '#' && u[j] != '=' && u[j] != '\n' by {
        assert(is_key_char(k[j]));
        lemma_case_round_trip(k[j]);
    }
    assert(no_dunder(u)) by {
        assert forall|i: int| 0 <= i < u.len() - 1 implies !(#[trigger] u[i] == '_' && u[i + 1] == '_') by {
            assert(is_key_char(k[i]));
            assert(is_key_char(k[i + 1]));
            lemma_case_round_trip(k[i]);
            lemma_case_round_trip(k[i + 1]);
            assert(u[i] == env_char(k[i]));
            assert(u[i + 1] == env_char(k[i + 1]));
            assert(!(k[i] == '_' && k[i + 1] == '_'));
        }
    }
    assert(is_key_char(k[k.len() - 1]));
    lemma_case_round_trip(k[k.len() - 1]);
    assert(u.last() == env_char(k.last()));
    assert(crate::env_to_yaml::all_ascii(u)) by {
        assert forall|i: int| 0 <= i < u.len() implies (#[trigger] u[i] as u32) < 128 by {
            assert(is_key_char(k[i]));
            lemma_case_round_trip(k[i]);
        }
    }
    assert(u.map_values(|c: char| ascii_lower(c)) =~= k) by {
        assert forall|i: int| 0 <= i < k.len() implies u.map_values(|c: char| ascii_lower(c))[i] == k[i] by {
            assert(is_key_char(k[i]));
            lemma_case_round_trip(k[i]);
        }
    }
}


/// A scalar whose path and value both directions keep as they are.
pub open spec fn plain_leaf(e: (Seq<Seq<char>>, Seq<char>)) -> bool {
    &&& e.0.len() > 0
    &&& forall|t: int| 0 <= t < e.0.len() ==> plain_key(#[trigger] e.0[t])
    &&& forall|t: int| 0 <= t < e.0.len() - 1 ==> (#[trigger] e.0[t]).last() != '_'
    &&& plain_value(e.1)
}

#[verifier::spinoff_prover]
#[verifier::rlimit(40)]
proof fn lemma_leaves_plain(c: Seq<(Seq<char>, Tree)>, p: Seq<Seq<char>>, i: int)
    requires
        canonical(c),
        0 <= i <= c.len(),
        forall|t: int| 0 <= t < p.len() ==> plain_key(#[trigger] p[t]),
        forall|t: int| 0 <= t < p.len() ==> (#[trigger] p[t]).last() != '_',
    ensures
        forall|t: int| 0 <= t < leaves_from(c, p, i).len() ==> plain_leaf(#[trigger] leaves_from(c, p, i)[t]),
    decreases c, c.len() - i,
{
    if i >= c.len() {
        return;
    }
    lemma_leaves_plain(c, p, i + 1);
    let k = c[i].0;
    assert(plain_key(k));
    let pk = p.push(k);
    assert forall|t: int| 0 <= t < pk.len() implies plain_key(#[trigger] pk[t]) by {
        if t < p.len() {
            assert(pk[t] == p[t]);
        }
    }
    let rest = leaves_from(c, p, i + 1);
    let l = leaves_from(c, p, i);
    match c[i].1 {
        Tree::Leaf(v) => {
            assert(plain_value(v));
            assert forall|t: int| 0 <= t < l.len() implies plain_leaf(#[trigger] l[t]) by {
                if t > 0 {
                    assert(l[t] == rest[t - 1]);
                } else {
                    assert forall|u: int| 0 <= u < pk.len() - 1 implies (#[trigger] pk[u]).last() != '_' by {
                        assert(pk[u] == p[u]);
                    }
                }
            }
        },
        Tree::Branch(sub) => {
            assert(canonical(sub));
            assert(decreases_to!(c => c[i]));
            assert(k.last() != '_');
            assert forall|u: int| 0 <= u < pk.len() implies (#[trigger] pk[u]).last() != '_' by {
                if u < p.len() {
                    assert(pk[u] == p[u]);
                }
            }
            lemma_leaves_plain(sub, pk, 0);
            let a = leaves_from(sub, pk, 0);
            assert(l == a + rest);
            assert forall|t: int| 0 <= t < l.len() implies plain_leaf(#[trigger] l[t]) by {
                if t < a.len() {
                    assert(l[t] == a[t]);
                } else {
                    assert(l[t] == rest[t - a.len()]);
                }
            }
        },
    }
}

proof fn lemma_prefix_join_chars(p: Seq<Seq<char>>)
    requires
        forall|t: int| 0 <= t < p.len() ==> plain_key(#[trigger] p[t]),
    ensures
        forall|j: int| 0 <= j < prefix_join(p).len() ==> is_key_char(#[trigger] prefix_join(p)[j]),
    decreases p.len(),
{
    if p.len() > 0 {
        let q = p.drop_last();
        assert forall|t: int| 0 <= t < q.len() implies plain_key(#[trigger] q[t]) by {
            assert(q[t] == p[t]);
        }
        lemma_prefix_join_chars(q);
        let a = prefix_join(q);
        let k = p.last();
        assert(plain_key(p[p.len() - 1]));
        let s = prefix_join(p);
        assert(s == a + k + seq!['_', '_']);
        assert forall|j: int| 0 <= j < s.len() implies is_key_char(#[trigger] s[j]) by {
            if j < a.len() {
                assert(s[j] == a[j]);
            } else if j < a.len() + k.len() {
                assert(s[j] == k[j - a.len()]);
            } else {
                assert(s[j] == '_');
            }
        }
    }
}

/// The `KEY=VALUE` line of a plain scalar is read back as an insertion
/// of that scalar at its path.
#[verifier::spinoff_prover]
#[verifier::rlimit(40)]
proof fn lemma_env_line_effect(t: Seq<(Seq<char>, Tree)>, e: (Seq<Seq<char>>, Seq<char>))
    requires
        plain_leaf(e),
    ensures
        crate::env_to_yaml::line_effect(t, env_line(e)) == crate::env_to_yaml::tree_insert(t, e.0, e.1),
        line_ok(env_line(e)),
{
    let p = e.0.drop_last();
    let k = e.0.last();
    let v = e.1;
    assert forall|i: int| 0 <= i < p.len() implies plain_key(#[trigger] p[i]) && p[i].last() != '_' by {
        assert(p[i] == e.0[i]);
    }
    assert(plain_key(e.0[e.0.len() - 1]));
    let joined = prefix_join(p) + k;
    lemma_prefix_join_chars(p);
    assert forall|j: int| 0 <= j < joined.len() implies is_key_char(#[trigger] joined[j]) by {
        if j < prefix_join(p).len() {
            assert(joined[j] == prefix_join(p)[j]);
        } else {
            assert(joined[j] == k[j - prefix_join(p).len()]);
        }
    }
    let name = env_key(p, k);
    assert(name == upw(joined));
    assert forall|j: int| 0 <= j < name.len() implies !is_ws(#[trigger] name[j]) && name[j] != '#' && name[j] != '=' && name[j] != '\n' by {
        assert(is_key_char(joined[j]));
        lemma_case_round_trip(joined[j]);
    }
    let line = env_line(e);
    assert(line == name + seq!['='] + v);
    assert(name.len() > 0);
    assert(line[0] == name[0]);
    assert(line.last() == v.last());
    lemma_trim_plain(line);
    assert forall|j: int| 0 <= j < name.len() implies #[trigger] line[j] != '=' by {
        assert(line[j] == name[j]);
    }
    lemma_find_char_first(line, '=', name.len() as int);
    assert(line.take(name.len() as int) =~= name);
    assert(line.skip(name.len() as int + 1) =~= v);
    // The key splits back into the path.
    let q = p.map_values(|s: Seq<char>| upw(s));
    assert(upw(joined) =~= upw(prefix_join(p)) + upw(k));
    lemma_prefix_join_map(p);
    assert forall|i: int| 0 <= i < q.len() implies split_word(#[trigger] q[i]) by {
        lemma_plain_key_upw(p[i]);
    }
    lemma_plain_key_upw(k);
    lemma_split_joined(q, upw(k));
    assert(crate::env_to_yaml::key_path(name) =~= e.0) by {
        assert forall|i: int| 0 <= i < e.0.len() implies crate::env_to_yaml::key_path(name)[i] == e.0[i] by {
            if i < p.len() {
                lemma_plain_key_upw(p[i]);
                assert(q.push(upw(k))[i] == upw(p[i]));
            } else {
                assert(q.push(upw(k))[i] == upw(k));
            }
        }
    }
    // No line break, no trailing whitespace.
    assert(no_newline(line)) by {
        assert forall|j: int| 0 <= j < line.len() implies #[trigger] line[j] != '\n' by {
            if j < name.len() {
                assert(line[j] == name[j]);
            } else if j > name.len() {
                assert(line[j] == v[j - name.len() - 1]);
            }
        }
    }
}

proof fn lemma_build_env(ls: Seq<(Seq<Seq<char>>, Seq<char>)>)
    requires
        forall|t: int| 0 <= t < ls.len() ==> plain_leaf(#[trigger] ls[t]),
    ensures
        build_tree(env_lines(ls)) == fold_insert(Seq::empty(), ls),
        lines_ok(env_lines(ls)),
    decreases ls.len(),
{
    if ls.len() == 0 {
        assert(env_lines(ls) =~= Seq::<Seq<char>>::empty());
        return;
    }
    let init = ls.drop_last();
    assert forall|t: int| 0 <= t < init.len() implies plain_leaf(#[trigger] init[t]) by {
        assert(init[t] == ls[t]);
    }
    lemma_build_env(init);
    assert(env_lines(ls).drop_last() =~= env_lines(init));
    assert(plain_leaf(ls[ls.len() - 1]));
    lemma_env_line_effect(build_tree(env_lines(init)), ls.last());
    assert(lines_ok(env_lines(ls))) by {
        assert forall|t: int| 0 <= t < env_lines(ls).len() implies line_ok(#[trigger] env_lines(ls)[t]) by {
            if t < init.len() {
                assert(env_lines(ls)[t] == env_lines(init)[t]);
            }
        }
    }
}

/// Reading back the env file of a canonical tree and writing it as YAML
/// gives exactly the YAML that `env_to_yaml` writes for the tree.
pub proof fn lemma_expand_of_env(c: Seq<(Seq<char>, Tree)>)
    requires
        canonical_root(c),
    ensures
        expand_text(env_text(c)) == render_group(c, 0),
        build_tree(lines(env_text(c))) == c,
{
    let leaves = tree_leaves(c);
    if c.len() > 0 {
        lemma_leaves_plain(c, Seq::empty(), 0);
        lemma_fold_leaves(Seq::empty(), c, 0);
        assert(Seq::<(Seq<char>, Tree)>::empty() + c.skip(0) =~= c);
    } else {
        assert(leaves =~= Seq::<(Seq<Seq<char>>, Seq<char>)>::empty());
    }
    lemma_build_env(leaves);
    lemma_lines_terminated(env_lines(leaves));
}

/// Round trip from YAML: a YAML document in the canonical form (what
/// `env_to_yaml` writes for a tree of plain keys and plain values) is
/// flattened to `KEY=VALUE` lines that expand back to the same document.
pub proof fn lemma_yaml_round_trip(c: Seq<(Seq<char>, Tree)>)
    requires
        canonical_root(c),
    ensures
        expand_text(flatten_text(render_group(c, 0))) == render_group(c, 0),
{
    lemma_flatten_of_render(c);
    lemma_expand_of_env(c);
}

/// Round trip from an env file: the `KEY=VALUE` lines of a canonical tree
/// expand to YAML that flattens back to the same lines.
pub proof fn lemma_env_round_trip(c: Seq<(Seq<char>, Tree)>)
    requires
        canonical_root(c),
    ensures
        flatten_text(expand_text(env_text(c))) == env_text(c),
{
    lemma_expand_of_env(c);
    lemma_flatten_of_render(c);
}


/// An env file in canonical form: the `KEY=VALUE` lines that some
/// canonical tree writes, one per scalar, in document order.
pub open spec fn canonical_env_text(e: Seq<char>) -> bool {
    exists|c: Seq<(Seq<char>, Tree)>| canonical_root(c) && #[trigger] env_text(c) == e
}

/// A YAML document in canonical form: what `env_to_yaml` writes for some
/// canonical tree.
pub open spec fn canonical_yaml_text(y: Seq<char>) -> bool {
    exists|c: Seq<(Seq<char>, Tree)>| canonical_root(c) && #[trigger] render_group(c, 0) == y
}

/// Round trip from an env file in canonical form, stated over the text:
/// `yaml_to_env::convert` of `env_to_yaml::convert(e)` is `e` again; the
/// YAML in between is in canonical form, and the tree read from `e` is the
/// canonical tree that writes `e`.
pub proof fn lemma_env_text_round_trip(e: Seq<char>)
    requires
        canonical_env_text(e),
    ensures
        flatten_text(expand_text(e)) == e,
        canonical_yaml_text(expand_text(e)),
        canonical_root(build_tree(lines(e))),
        env_text(build_tree(lines(e))) == e,
{
    let c = choose|c: Seq<(Seq<char>, Tree)>| canonical_root(c) && #[trigger] env_text(c) == e;
    lemma_env_round_trip(c);
    lemma_expand_of_env(c);
    assert(canonical_root(c) && render_group(c, 0) == expand_text(e));
}

/// Round trip from a YAML document in canonical form, stated over the
/// text: `env_to_yaml::convert` of `yaml_to_env::convert(y)` is `y` again,
/// and the env file in between is in canonical form.
pub proof fn lemma_yaml_text_round_trip(y: Seq<char>)
    requires
        canonical_yaml_text(y),
    ensures
        expand_text(flatten_text(y)) == y,
        canonical_env_text(flatten_text(y)),
{
    let c = choose|c: Seq<(Seq<char>, Tree)>| canonical_root(c) && #[trigger] render_group(c, 0) == y;
    lemma_yaml_round_trip(c);
    lemma_flatten_of_render(c);
    assert(canonical_root(c) && env_text(c) == flatten_text(y));
}


// ---------------------------------------------------------------------
// Laws of single lines and single groups
// ---------------------------------------------------------------------

/// The two characters `a`, `b` first occur together at `m`.
proof fn lemma_find_pair_first(s: Seq<char>, a: char, b: char, m: int)
    requires
        0 <= m,
        m + 1 < s.len(),
        s[m] == a && s[m + 1] == b,
        forall|j: int| 0 <= j < m ==> !(#[trigger] s[j] == a && s[j + 1] == b),
    ensures
        find_pair(s, a, b, 0) == Some(m),
{
    lemma_find_pair(s, a, b, 0);
    match find_pair(s, a, b, 0) {
        Some(k) => {
            if k < m {
                assert(s[k] == a && s[k + 1] == b);
            }
        },
        None => {},
    }
}

/// No two characters `a`, `b` occur together in `s`.
proof fn lemma_find_pair_none(s: Seq<char>, a: char, b: char)
    requires
        forall|j: int| 0 <= j && j + 1 < s.len() ==> !(#[trigger] s[j] == a && s[j + 1] == b),
    ensures
        find_pair(s, a, b, 0) is None,
{
    lemma_find_pair(s, a, b, 0);
    match find_pair(s, a, b, 0) {
        Some(k) => {
            assert(s[k] == a && s[k + 1] == b);
        },
        None => {},
    }
}

/// A trailing `" #"` comment on a scalar sequence item is not part of the
/// item: from every state and at every depth, the line `- v # c` does
/// exactly what the line `- v` does (same next state, same assignment),
/// for an unquoted value `v` with no `" #"` of its own that is not shaped
/// like `key: value`, and a comment `c` that does not make the line look
/// like one.
pub proof fn lemma_seq_item_comment_dropped(st: FlatModel, d: nat, v: Seq<char>, c: Seq<char>)
    requires
        v.len() > 0,
        !is_ws(v[0]),
        !is_ws(v.last()),
        v[0] != '"' && v[0] != '\'',
        find_pair(v, ' ', '#', 0) is None,
        !is_mapping_item(v),
        c.len() > 0,
        !is_ws(c.last()),
        c.last() != ':',
        find_pair(c, ':', ' ', 0) is None,
    ensures
        step(st, dash_line(d, v + seq![' ', '#', ' '] + c)) == step(st, dash_line(d, v)),
{
    let x = v + seq![' ', '#', ' '] + c;
    let n = v.len() as int;
    assert(x[0] == v[0]);
    assert(x.last() == c.last());
    lemma_dash_shape(d, x);
    lemma_dash_shape(d, v);
    lemma_find_pair(v, ' ', '#', 0);
    lemma_find_pair(v, ':', ' ', 0);
    lemma_find_pair(c, ':', ' ', 0);
    // The comment starts right after the value.
    assert forall|j: int| 0 <= j < n implies !(#[trigger] x[j] == ' ' && x[j + 1] == '#') by {
        assert(x[j] == v[j]);
        if j + 1 < n {
            assert(x[j + 1] == v[j + 1]);
        } else {
            assert(x[j + 1] == ' ');
        }
    }
    assert(x[n] == ' ' && x[n + 1] == '#');
    lemma_find_pair_first(x, ' ', '#', n);
    assert(x.take(n) =~= v);
    crate::text::lemma_trim_end_noop(v);
    // Nor does the comment make the item look like `key: value`.
    assert(v.last() != ':');
    assert forall|j: int| 0 <= j && j + 1 < x.len() implies !(#[trigger] x[j] == ':' && x[j + 1] == ' ') by {
        if j + 1 < n {
            assert(x[j] == v[j] && x[j + 1] == v[j + 1]);
        } else if j + 1 == n {
            assert(x[j] == v.last());
        } else if j < n + 3 {
            assert(x[j] == seq![' ', '#', ' '][j - n]);
        } else {
            assert(x[j] == c[j - n - 3]);
            assert(x[j + 1] == c[j + 1 - n - 3]);
        }
    }
    lemma_find_pair_none(x, ':', ' ');
    assert(!is_mapping_item(x));
}

/// Replacing one line by another that does the same from every state
/// changes nothing that the reader writes or keeps.
pub proof fn lemma_run_same_step(st: FlatModel, a: Seq<Seq<char>>, l1: Seq<char>, l2: Seq<char>, b: Seq<Seq<char>>)
    requires
        forall|s2: FlatModel| #[trigger] step(s2, l1) == step(s2, l2),
    ensures
        run(st, a + seq![l1] + b) == run(st, a + seq![l2] + b),
{
    lemma_run_append(st, a, seq![l1] + b);
    lemma_run_append(st, a, seq![l2] + b);
    assert(a + seq![l1] + b =~= a + (seq![l1] + b));
    assert(a + seq![l2] + b =~= a + (seq![l2] + b));
    let mid = run(st, a).0;
    lemma_run_cons(mid, l1, b);
    lemma_run_cons(mid, l2, b);
    assert(step(mid, l1) == step(mid, l2));
}

/// The value of a `key: value` line does not depend on the whitespace
/// between the colon and the value: the key is the text before the first
/// colon, trimmed, and the value is `v` whatever whitespace `ws` stands
/// in front of it.
pub proof fn lemma_key_value_spacing(k: Seq<char>, ws: Seq<char>, v: Seq<char>)
    requires
        forall|j: int| 0 <= j < k.len() ==> #[trigger] k[j] != ':',
        forall|j: int| 0 <= j < ws.len() ==> is_ws(#[trigger] ws[j]),
        v.len() > 0,
        !is_ws(v[0]),
        !is_ws(v.last()),
        without_comment(v) == v,
    ensures
        key_value(k + seq![':'] + ws + v) == (trim(k), Some(v)),
{
    let s = k + seq![':'] + ws + v;
    assert forall|j: int| 0 <= j < k.len() implies #[trigger] s[j] != ':' by {
        assert(s[j] == k[j]);
    }
    lemma_find_char_first(s, ':', k.len() as int);
    assert(s.take(k.len() as int) =~= k);
    let after = s.skip(k.len() as int + 1);
    assert(after =~= ws + v);
    assert forall|j: int| 0 <= j < ws.len() implies is_ws(#[trigger] after[j]) by {
        assert(after[j] == ws[j]);
    }
    assert(after[ws.len() as int] == v[0]);
    lemma_ws_run_end_at(after, ws.len() as int);
    assert(trim_start(after) =~= v);
    crate::text::lemma_trim_end_noop(v);
}

/// Each character of a variable name: an ASCII digit, an upper-case ASCII
/// letter or `'_'` stays as it is, a lower-case ASCII letter becomes its
/// upper-case letter, anything else becomes `'_'`; so the case of a key's
/// letters never matters.
pub proof fn lemma_env_char(c: char)
    ensures
        ((48 <= c as u32 && c as u32 <= 57) || (65 <= c as u32 && c as u32 <= 90) || c as u32 == 95)
            ==> env_char(c) == c,
        (97 <= c as u32 && c as u32 <= 122) ==> env_char(c) as u32 == c as u32 - 32,
        !((48 <= c as u32 && c as u32 <= 57) || (65 <= c as u32 && c as u32 <= 90) || (97
            <= c as u32 && c as u32 <= 122) || c as u32 == 95) ==> env_char(c) == '_',
        env_char(ascii_lower(c)) == env_char(c),
        (48 <= env_char(c) as u32 && env_char(c) as u32 <= 57) || (65 <= env_char(c) as u32
            && env_char(c) as u32 <= 90) || env_char(c) == '_',
{
}

/// A variable name is the same whatever the case of the key's ASCII
/// letters, and is made only of upper-case ASCII letters, digits and
/// `'_'`.
pub proof fn lemma_env_name_case(stack: Seq<FrameModel>, leaf: Seq<char>)
    ensures
        env_name(stack, leaf.map_values(|c: char| ascii_lower(c))) == env_name(stack, leaf),
        env_name(stack, leaf).len() == path_prefix(stack).len() + leaf.len(),
        forall|i: int|
            0 <= i < env_name(stack, leaf).len() ==> ((48 <= #[trigger] env_name(stack, leaf)[i] as u32
                && env_name(stack, leaf)[i] as u32 <= 57) || (65 <= env_name(stack, leaf)[i] as u32
                && env_name(stack, leaf)[i] as u32 <= 90) || env_name(stack, leaf)[i] == '_'),
{
    let p = path_prefix(stack);
    let low = leaf.map_values(|c: char| ascii_lower(c));
    let a = env_name(stack, low);
    let b = env_name(stack, leaf);
    assert forall|i: int| 0 <= i < b.len() implies a[i] == b[i] by {
        if i < p.len() {
            assert((p + low)[i] == p[i] && (p + leaf)[i] == p[i]);
        } else {
            assert((p + low)[i] == ascii_lower(leaf[i - p.len()]));
            assert((p + leaf)[i] == leaf[i - p.len()]);
            lemma_env_char(leaf[i - p.len()]);
        }
    }
    assert(a =~= b);
    assert forall|i: int| 0 <= i < b.len() implies ((48 <= #[trigger] b[i] as u32 && b[i] as u32 <= 57)
        || (65 <= b[i] as u32 && b[i] as u32 <= 90) || b[i] == '_') by {
        lemma_env_char((p + leaf)[i]);
    }
}

proof fn lemma_split_dunder_nonempty(s: Seq<char>, cur: Seq<char>)
    ensures
        crate::env_to_yaml::split_dunder_from(s, cur).len() > 0,
    decreases s.len(),
{
    if s.len() == 0 {
    } else if s.len() >= 2 && s[0] == '_' && s[1] == '_' {
        lemma_split_dunder_nonempty(s.skip(2), Seq::empty());
    } else {
        lemma_split_dunder_nonempty(s.drop_first(), cur.push(s[0]));
    }
}

/// Every `KEY=VALUE` line inserts its value at its key's path, whatever
/// the value, the empty value included: afterwards the key's path holds
/// exactly that value.
pub proof fn lemma_line_effect_assignment(c: Seq<(Seq<char>, Tree)>, key: Seq<char>, v: Seq<char>)
    requires
        key.len() > 0,
        !is_ws(key[0]),
        key[0] != '#',
        forall|j: int| 0 <= j < key.len() ==> #[trigger] key[j] != '=',
        v.len() == 0 || !is_ws(v.last()),
    ensures
        crate::env_to_yaml::line_effect(c, key + seq!['='] + v) == crate::env_to_yaml::tree_insert(
            c,
            crate::env_to_yaml::key_path(key),
            v,
        ),
        crate::env_to_yaml::leaf_at(
            crate::env_to_yaml::line_effect(c, key + seq!['='] + v),
            crate::env_to_yaml::key_path(key),
        ) == Some(v),
{
    let line = key + seq!['='] + v;
    assert(line[0] == key[0]);
    if v.len() == 0 {
        assert(line.last() == '=');
    } else {
        assert(line.last() == v.last());
    }
    lemma_trim_plain(line);
    assert forall|j: int| 0 <= j < key.len() implies #[trigger] line[j] != '=' by {
        assert(line[j] == key[j]);
    }
    lemma_find_char_first(line, '=', key.len() as int);
    assert(line.take(key.len() as int) =~= key);
    assert(line.skip(key.len() as int + 1) =~= v);
    lemma_split_dunder_nonempty(key, Seq::empty());
    let p = crate::env_to_yaml::key_path(key);
    crate::env_to_yaml::lemma_insert_leaf_at(c, p, v, p);
}

/// Items of a sequence group that holds the same children in another
/// order are found with the same contents.
proof fn lemma_seq_item_same(c1: Seq<(Seq<char>, Tree)>, c2: Seq<(Seq<char>, Tree)>, i: nat)
    requires
        is_seq_group(c1),
        is_seq_group(c2),
        c1.len() == c2.len(),
        forall|e: (Seq<char>, Tree)| c1.contains(e) <==> c2.contains(e),
        i < c1.len(),
    ensures
        key_index_from(c1, decimal(i), 0) is Some,
        key_index_from(c2, decimal(i), 0) is Some,
        c1[key_index_from(c1, decimal(i), 0)->0] == c2[key_index_from(c2, decimal(i), 0)->0],
{
    let k = decimal(i);
    assert(crate::env_to_yaml::has_key(c1, k));
    let t1 = choose|j: int| 0 <= j < c1.len() && #[trigger] c1[j].0 == k;
    lemma_key_index_from(c1, k, 0);
    lemma_key_index_from(c2, k, 0);
    match key_index_from(c1, k, 0) {
        Some(j1) => {
            assert(c1.contains(c1[j1]));
            assert(c2.contains(c1[j1]));
            let t = choose|t: int| 0 <= t < c2.len() && c2[t] == c1[j1];
            assert(c2[t].0 == k);
            match key_index_from(c2, k, 0) {
                Some(j2) => {
                    if j2 != t {
                        if j2 < t {
                            assert(c2[j2].0 != c2[t].0);
                        } else {
                            assert(c2[t].0 != c2[j2].0);
                        }
                    }
                },
                None => {},
            }
        },
        None => {
            assert(c1[t1].0 == k);
        },
    }
}

proof fn lemma_render_seq_from_same(c1: Seq<(Seq<char>, Tree)>, c2: Seq<(Seq<char>, Tree)>, d: nat, i: int)
    requires
        is_seq_group(c1),
        is_seq_group(c2),
        c1.len() == c2.len(),
        forall|e: (Seq<char>, Tree)| c1.contains(e) <==> c2.contains(e),
        0 <= i <= c1.len(),
    ensures
        render_seq_from(c1, d, i) == render_seq_from(c2, d, i),
    decreases c1.len() - i,
{
    if i < c1.len() {
        lemma_render_seq_from_same(c1, c2, d, i + 1);
        lemma_seq_item_same(c1, c2, i as nat);
        lemma_key_index_from(c1, decimal(i as nat), 0);
        lemma_key_index_from(c2, decimal(i as nat), 0);
    }
}

/// A sequence group is written the same whatever order its children are
/// stored in (the order their keys were first seen): its items always
/// come out in index order, every index `0 .. n-1` once.
pub proof fn lemma_render_seq_any_order(c1: Seq<(Seq<char>, Tree)>, c2: Seq<(Seq<char>, Tree)>, d: nat)
    requires
        is_seq_group(c1),
        is_seq_group(c2),
        c1.len() == c2.len(),
        forall|e: (Seq<char>, Tree)| c1.contains(e) <==> c2.contains(e),
    ensures
        render_group(c1, d) == render_group(c2, d),
{
    lemma_render_seq_from_same(c1, c2, d, 0);
}

/// Item `i` of a sequence group is the child keyed by the decimal form of
/// `i`, wherever that child is stored: from index `i` on, the text is that
/// child written as a `- ` item (a scalar inline, a group as its first line
/// after the dash and the rest below), followed by the items `i+1 .. n-1`.
pub proof fn lemma_render_seq_item(c: Seq<(Seq<char>, Tree)>, d: nat, i: nat, j: int)
    requires
        is_seq_group(c),
        i < c.len(),
        0 <= j < c.len(),
        c[j].0 == decimal(i),
    ensures
        render_seq_from(c, d, i as int) == (match c[j].1 {
            Tree::Leaf(v) => indent(d) + seq!['-', ' '] + v + seq!['\n'],
            Tree::Branch(sub) => render_item(sub, d),
        }) + render_seq_from(c, d, i as int + 1),
{
    let k = decimal(i);
    lemma_key_index_from(c, k, 0);
    match key_index_from(c, k, 0) {
        Some(t) => {
            if t != j {
                if t < j {
                    assert(c[t].0 != c[j].0);
                } else {
                    assert(c[j].0 != c[t].0);
                }
            }
        },
        None => {
            assert(c[j].0 == k);
        },
    }
}

} // verus!
