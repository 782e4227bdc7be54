//! Nested YAML (block mappings and block sequences) to flat `KEY=VALUE`
//! lines, one line in, at most one assignment out, with a stack of the
//! open parent keys as the only state.
use vstd::prelude::*;
use crate::text::{
    ascii_upper, byte_len, byte_len_of, decimal, extend, find_char, find_char_index, find_pair,
    find_pair_index, is_ascii_alnum, is_ascii_alphanumeric, is_whitespace, is_ws,
    lemma_byte_len_append, lemma_byte_len_subrange, lemma_find_char, lemma_find_pair,
    lemma_ws_run_start, lines, subvec, to_ascii_uppercase, to_decimal, trim, trim_bounds, trim_end,
    trim_end_index, trim_start, trim_start_index, utf8_width, ws_run_end, chars_with_len,
    string_from_chars, split_lines, lemma_lines_from_len, terminated_text,
};

verus! {

/// An open parent key: its indentation (in bytes), its name, and, once it
/// has been used as a sequence, the index the next `- ` item takes.
pub struct FrameModel {
    pub indent: nat,
    pub name: Seq<char>,
    pub seq_next: Option<nat>,
}

/// The state between two lines: the stack of open parents and the index
/// of the next item of a sequence at the root.
pub struct FlatModel {
    pub stack: Seq<FrameModel>,
    pub root_next: nat,
}

pub open spec fn initial_model() -> FlatModel {
    FlatModel { stack: Seq::empty(), root_next: 0 }
}

/// What `strip_comment` keeps of a value: a value that starts with a quote is kept whole;
/// otherwise everything from the first `" #"` on is dropped, with the
/// whitespace before it.
pub open spec fn without_comment(v: Seq<char>) -> Seq<char> {
    if v.len() > 0 && (v[0] == '"' || v[0] == '\'') {
        v
    } else {
        match find_pair(v, ' ', '#', 0) {
            Some(i) => trim_end(v.take(i)),
            None => v,
        }
    }
}

/// How `split_key_value` splits a line's content: the key before the first `':'` and the value after
/// it, with `None` for an empty value (a parent key) or a line without a
/// colon.
pub open spec fn key_value(content: Seq<char>) -> (Seq<char>, Option<Seq<char>>) {
    match find_char(content, ':', 0) {
        Some(i) => {
            let key = trim(content.take(i));
            let rest = without_comment(trim(content.skip(i + 1)));
            if rest.len() == 0 {
                (key, None)
            } else {
                (key, Some(rest))
            }
        },
        None => (trim(content), None),
    }
}

/// A sequence item holds a mapping when it ends with `':'` or contains
/// `": "`.
pub open spec fn is_mapping_item(inner: Seq<char>) -> bool {
    (inner.len() > 0 && inner.last() == ':') || find_pair(inner, ':', ' ', 0) is Some
}

/// One character of an environment variable name: ASCII letters and
/// digits upper-cased, `'_'` kept, anything else turned into `'_'`.
pub open spec fn env_char(c: char) -> char {
    if is_ascii_alnum(c) || c == '_' {
        ascii_upper(c)
    } else {
        '_'
    }
}

/// The names of the open parents, each followed by `"__"`.
pub open spec fn path_prefix(stack: Seq<FrameModel>) -> Seq<char>
    decreases stack.len(),
{
    if stack.len() == 0 {
        Seq::empty()
    } else {
        path_prefix(stack.drop_last()) + stack.last().name + seq!['_', '_']
    }
}

/// The name `env_var_name` builds: the parents' names and the leaf joined by `"__"`, each
/// character passed through `env_char`.
pub open spec fn env_name(stack: Seq<FrameModel>, leaf: Seq<char>) -> Seq<char> {
    (path_prefix(stack) + leaf).map_values(|c: char| env_char(c))
}

pub open spec fn assignment(name: Seq<char>, value: Seq<char>) -> Seq<char> {
    name + seq!['='] + value
}

/// Closes every open parent indented at `indent` or deeper.
pub open spec fn pop_to(stack: Seq<FrameModel>, indent: nat) -> Seq<FrameModel>
    decreases stack.len(),
{
    if stack.len() > 0 && stack.last().indent >= indent {
        pop_to(stack.drop_last(), indent)
    } else {
        stack
    }
}

/// Bytes of the whitespace that `s` starts with.
pub open spec fn leading_ws_bytes(s: Seq<char>) -> nat {
    byte_len(s.take(ws_run_end(s, 0)))
}

/// A `key: value` or `key:` line at `indent`.
pub open spec fn mapping_step(st: FlatModel, indent: nat, content: Seq<char>) -> (
    FlatModel,
    Option<Seq<char>>,
) {
    let stack = pop_to(st.stack, indent);
    let (key, value) = key_value(content);
    match value {
        None => (
            FlatModel {
                stack: stack.push(FrameModel { indent, name: key, seq_next: None }),
                root_next: st.root_next,
            },
            None,
        ),
        Some(v) => (
            FlatModel { stack, root_next: st.root_next },
            Some(assignment(env_name(stack, key), v)),
        ),
    }
}

/// A `- ...` line whose dash stands at `dash_indent`; `after_dash` is what
/// follows the dash.
pub open spec fn seq_item_step(st: FlatModel, dash_indent: nat, after_dash: Seq<char>) -> (
    FlatModel,
    Option<Seq<char>>,
) {
    let stack = pop_to(st.stack, dash_indent);
    let idx: nat = if stack.len() > 0 {
        match stack.last().seq_next {
            Some(n) => n,
            None => 0,
        }
    } else {
        st.root_next
    };
    let stack2 = if stack.len() > 0 {
        stack.update(
            stack.len() - 1,
            FrameModel {
                indent: stack.last().indent,
                name: stack.last().name,
                seq_next: Some(idx + 1),
            },
        )
    } else {
        stack
    };
    let root2 = if stack.len() > 0 {
        st.root_next
    } else {
        st.root_next + 1
    };
    let inner = trim_start(after_dash);
    let content_start = dash_indent + 1 + leading_ws_bytes(after_dash);
    let item = FrameModel { indent: dash_indent, name: decimal(idx), seq_next: None };
    if inner.len() == 0 {
        (FlatModel { stack: stack2.push(item), root_next: root2 }, None)
    } else if is_mapping_item(inner) {
        let stack3 = stack2.push(item);
        let (key, value) = key_value(inner);
        match value {
            None => (
                FlatModel {
                    stack: stack3.push(FrameModel { indent: content_start, name: key, seq_next: None }),
                    root_next: root2,
                },
                None,
            ),
            Some(v) => (
                FlatModel { stack: stack3, root_next: root2 },
                Some(assignment(env_name(stack3, key), v)),
            ),
        }
    } else {
        (
            FlatModel { stack: stack2, root_next: root2 },
            Some(assignment(env_name(stack2, decimal(idx)), without_comment(inner))),
        )
    }
}

/// What one input line does: the next state, and the assignment it
/// writes, if any. Blank lines and comment lines change nothing.
pub open spec fn step(st: FlatModel, line: Seq<char>) -> (FlatModel, Option<Seq<char>>) {
    let trimmed = trim_end(line);
    let content = trim_start(trimmed);
    if content.len() == 0 || content[0] == '#' {
        (st, None)
    } else {
        let indent = leading_ws_bytes(trimmed);
        if content[0] == '-' && (content.len() == 1 || is_ws(content[1])) {
            seq_item_step(st, indent, content.drop_first())
        } else {
            mapping_step(st, indent, content)
        }
    }
}

/// The state after `ls` and the assignments written, in order.
pub open spec fn run(st: FlatModel, ls: Seq<Seq<char>>) -> (FlatModel, Seq<Seq<char>>)
    decreases ls.len(),
{
    if ls.len() == 0 {
        (st, Seq::empty())
    } else {
        let (st1, out1) = run(st, ls.drop_last());
        let (st2, o) = step(st1, ls.last());
        (
            st2,
            match o {
                Some(a) => out1.push(a),
                None => out1,
            },
        )
    }
}

/// The whole output for a whole input.
pub open spec fn flatten_text(input: Seq<char>) -> Seq<char> {
    terminated_text(run(initial_model(), lines(input)).1)
}

/// Parents indented strictly deeper and deeper, bottom to top.
pub open spec fn stack_wf(stack: Seq<FrameModel>) -> bool {
    forall|i: int, j: int| 0 <= i < j < stack.len() ==> stack[i].indent < stack[j].indent
}

/// No sequence index has passed `m`.
pub open spec fn counters_at_most(st: FlatModel, m: nat) -> bool {
    &&& st.root_next <= m
    &&& forall|i: int|
        0 <= i < st.stack.len() ==> match #[trigger] st.stack[i].seq_next {
            Some(n) => n <= m,
            None => true,
        }
}


/// Stripping a comment keeps a prefix of the value, and stripping again
/// changes nothing.
pub proof fn lemma_without_comment(v: Seq<char>)
    ensures
        without_comment(v).len() <= v.len(),
        without_comment(v) == v.take(without_comment(v).len() as int),
        without_comment(without_comment(v)) == without_comment(v),
{
    let r = without_comment(v);
    if v.len() > 0 && (v[0] == '"' || v[0] == '\'') {
        assert(v.take(v.len() as int) =~= v);
    } else {
        crate::text::lemma_find_pair(v, ' ', '#', 0);
        match find_pair(v, ' ', '#', 0) {
            Some(i) => {
                let h = v.take(i);
                crate::text::lemma_ws_run_start(h, h.len() as int);
                let m = crate::text::ws_run_start(h, h.len() as int);
                assert(r =~= v.take(m));
                assert(r.len() == m);
                crate::text::lemma_find_pair(r, ' ', '#', 0);
                assert(find_pair(r, ' ', '#', 0) is None) by {
                    match find_pair(r, ' ', '#', 0) {
                        Some(j) => {
                            assert(r[j] == v[j] && r[j + 1] == v[j + 1]);
                        },
                        None => {},
                    }
                }
                if r.len() > 0 {
                    assert(r[0] == v[0]);
                }
            },
            None => {
                assert(v.take(v.len() as int) =~= v);
            },
        }
    }
}

/// Closing parents leaves a bottom part of the stack: everything above
/// it sits at `indent` or deeper, its top sits above `indent`.
pub proof fn lemma_pop_to(stack: Seq<FrameModel>, indent: nat) -> (k: int)
    ensures
        0 <= k <= stack.len(),
        pop_to(stack, indent) == stack.take(k),
        k > 0 ==> stack[k - 1].indent < indent,
        forall|j: int| k <= j < stack.len() ==> stack[j].indent >= indent,
    decreases stack.len(),
{
    if stack.len() > 0 && stack.last().indent >= indent {
        let k = lemma_pop_to(stack.drop_last(), indent);
        assert(stack.drop_last().take(k) =~= stack.take(k));
        assert forall|j: int| k <= j < stack.len() implies stack[j].indent >= indent by {
            if j < stack.len() - 1 {
                assert(stack.drop_last()[j] == stack[j]);
            }
        }
        k
    } else {
        assert(stack.take(stack.len() as int) =~= stack);
        stack.len() as int
    }
}

/// Each line numbers at most one more sequence item, by one.
pub proof fn lemma_step_counters(st: FlatModel, line: Seq<char>, m: nat)
    requires
        counters_at_most(st, m),
    ensures
        counters_at_most(step(st, line).0, m + 1),
{
    let trimmed = trim_end(line);
    let content = trim_start(trimmed);
    if content.len() == 0 || content[0] == '#' {
    } else {
        let indent = leading_ws_bytes(trimmed);
        if content[0] == '-' && (content.len() == 1 || is_ws(content[1])) {
            let k = lemma_pop_to(st.stack, indent);
            let stack = pop_to(st.stack, indent);
            if stack.len() > 0 {
                assert(stack.last() == st.stack[k - 1]);
            }
        } else {
            let k = lemma_pop_to(st.stack, indent);
        }
    }
}

/// Closing parents deeper than `indent` leaves only parents above it.
proof fn lemma_pop_to_wf(stack: Seq<FrameModel>, indent: nat)
    requires
        stack_wf(stack),
    ensures
        stack_wf(pop_to(stack, indent)),
        forall|i: int| 0 <= i < pop_to(stack, indent).len() ==> #[trigger] pop_to(stack, indent)[i].indent < indent,
{
    let k = lemma_pop_to(stack, indent);
    assert forall|i: int| 0 <= i < k implies #[trigger] stack[i].indent < indent by {
        if i < k - 1 {
            assert(stack[i].indent < stack[k - 1].indent);
        }
    }
}

/// The open parents always sit at strictly increasing indentation, so the
/// stack never holds more entries than there are distinct indentation
/// depths: its size is bounded by the nesting depth, not the input size.
pub proof fn lemma_step_keeps_stack_wf(st: FlatModel, line: Seq<char>)
    requires
        stack_wf(st.stack),
    ensures
        stack_wf(step(st, line).0.stack),
{
    let trimmed = trim_end(line);
    let content = trim_start(trimmed);
    if content.len() == 0 || content[0] == '#' {
    } else {
        let indent = leading_ws_bytes(trimmed);
        lemma_pop_to_wf(st.stack, indent);
    }
}

/// Memory stays bounded by nesting depth: with parents at strictly
/// increasing indentation, the stack holds at most one more parent than
/// the indentation (in bytes) of the innermost one.
pub proof fn lemma_stack_len_bound(stack: Seq<FrameModel>)
    requires
        stack_wf(stack),
        stack.len() > 0,
    ensures
        stack.len() <= stack.last().indent + 1,
    decreases stack.len(),
{
    if stack.len() > 1 {
        let s2 = stack.drop_last();
        assert(stack_wf(s2)) by {
            assert forall|i: int, j: int| 0 <= i < j < s2.len() implies s2[i].indent < s2[j].indent by {
                assert(s2[i] == stack[i]);
                assert(s2[j] == stack[j]);
            }
        }
        lemma_stack_len_bound(s2);
        assert(s2.last() == stack[stack.len() - 2]);
    }
}

/// A `- ` line keeps the open parents at strictly increasing indentation:
/// it closes every parent at the dash's indentation or deeper, and opens
/// the item (at the dash) and its first key (past it) above the rest.
pub proof fn lemma_seq_item_step_wf(st: FlatModel, dash_indent: nat, after_dash: Seq<char>)
    requires
        stack_wf(st.stack),
    ensures
        stack_wf(seq_item_step(st, dash_indent, after_dash).0.stack),
        stack_wf(pop_to(st.stack, dash_indent)),
        forall|j: int|
            pop_to(st.stack, dash_indent).len() <= j < st.stack.len() ==> #[trigger] st.stack[j].indent
                >= dash_indent,
{
    lemma_pop_to_wf(st.stack, dash_indent);
    let k = lemma_pop_to(st.stack, dash_indent);
}

struct Frame {
    indent: usize,
    name: Vec<char>,
    seq_next: Option<usize>,
}

pub open spec fn opt_nat(o: Option<usize>) -> Option<nat> {
    match o {
        Some(n) => Some(n as nat),
        None => None,
    }
}

pub open spec fn opt_chars(o: Option<Vec<char>>) -> Option<Seq<char>> {
    match o {
        Some(v) => Some(v@),
        None => None,
    }
}

pub open spec fn opt_string(o: Option<String>) -> Option<Seq<char>> {
    match o {
        Some(v) => Some(v@),
        None => None,
    }
}

impl View for Frame {
    type V = FrameModel;

    closed spec fn view(&self) -> FrameModel {
        FrameModel { indent: self.indent as nat, name: self.name@, seq_next: opt_nat(self.seq_next) }
    }
}

spec fn frames_view(s: Seq<Frame>) -> Seq<FrameModel> {
    s.map_values(|f: Frame| f@)
}

/// The converter's state between lines.
pub struct Flattener {
    stack: Vec<Frame>,
    root_seq_next: usize,
}

impl View for Flattener {
    type V = FlatModel;

    closed spec fn view(&self) -> FlatModel {
        FlatModel { stack: frames_view(self.stack@), root_next: self.root_seq_next as nat }
    }
}

fn copy_chars(v: &Vec<char>) -> (r: Vec<char>)
    ensures
        r@ == v@,
{
    let r = subvec(v, 0, v.len());
    assert(v@.subrange(0, v.len() as int) =~= v@);
    r
}

/// Drops a trailing `" #"` comment from a value, unless the value is quoted.
fn strip_comment(value: &Vec<char>) -> (r: Vec<char>)
    ensures
        r@ == without_comment(value@),
{
    if value.len() > 0 && (value[0] == '"' || value[0] == '\'') {
        return copy_chars(value);
    }
    match find_pair_index(value, ' ', '#') {
        Some(i) => {
            proof {
                lemma_find_pair(value@, ' ', '#', 0);
            }
            let head = subvec(value, 0, i);
            assert(head@ == value@.take(i as int));
            let e = trim_end_index(&head);
            proof {
                lemma_ws_run_start(head@, head@.len() as int);
            }
            subvec(&head, 0, e)
        },
        None => copy_chars(value),
    }
}

fn trimmed_copy(v: &Vec<char>) -> (r: Vec<char>)
    ensures
        r@ == trim(v@),
{
    let (a, b) = trim_bounds(v);
    subvec(v, a, b)
}

/// Splits a line's content at its first `':'` into a key and a value.
fn split_key_value(content: &Vec<char>) -> (r: (Vec<char>, Option<Vec<char>>))
    ensures
        (r.0@, opt_chars(r.1)) == key_value(content@),
{
    match find_char_index(content, ':') {
        Some(i) => {
            proof {
                lemma_find_char(content@, ':', 0);
            }
            assert(i < content.len());
            let head = subvec(content, 0, i);
            assert(head@ == content@.take(i as int));
            let key = trimmed_copy(&head);
            let tail = subvec(content, i + 1, content.len());
            assert(tail@ == content@.skip(i + 1));
            let t = trimmed_copy(&tail);
            let rest = strip_comment(&t);
            if rest.len() == 0 {
                (key, None)
            } else {
                (key, Some(rest))
            }
        },
        None => (trimmed_copy(content), None),
    }
}

/// A sequence item's inline content is a mapping when it has the shape
/// `key: value` or `key:`.
fn seq_item_is_mapping(inner: &Vec<char>) -> (b: bool)
    ensures
        b == is_mapping_item(inner@),
{
    (inner.len() > 0 && inner[inner.len() - 1] == ':') || find_pair_index(inner, ':', ' ').is_some()
}

proof fn lemma_path_prefix_step(s: Seq<FrameModel>, i: int)
    requires
        0 <= i < s.len(),
    ensures
        path_prefix(s.take(i + 1)) == path_prefix(s.take(i)) + s[i].name + seq!['_', '_'],
{
    assert(s.take(i + 1).drop_last() =~= s.take(i));
}

/// Joins the open parents and `leaf` with `"__"` and maps the result to
/// the characters of an environment variable name.
fn env_var_name(stack: &Vec<Frame>, leaf: &Vec<char>) -> (r: Vec<char>)
    ensures
        r@ == env_name(frames_view(stack@), leaf@),
{
    let ghost fs = frames_view(stack@);
    let mut name: Vec<char> = Vec::new();
    let mut i: usize = 0;
    assert(fs.take(0) =~= Seq::<FrameModel>::empty());
    while i < stack.len()
        invariant
            i <= stack.len(),
            fs == frames_view(stack@),
            name@ == path_prefix(fs.take(i as int)),
        decreases stack.len() - i,
    {
        extend(&mut name, &stack[i].name);
        name.push('_');
        name.push('_');
        proof {
            lemma_path_prefix_step(fs, i as int);
            assert(name@ =~= path_prefix(fs.take(i as int)) + fs[i as int].name + seq!['_', '_']);
        }
        i = i + 1;
    }
    assert(fs.take(stack.len() as int) =~= fs);
    extend(&mut name, leaf);
    let mut out: Vec<char> = Vec::new();
    let mut j: usize = 0;
    while j < name.len()
        invariant
            j <= name.len(),
            out@ == name@.take(j as int).map_values(|c: char| env_char(c)),
        decreases name.len() - j,
    {
        let c = name[j];
        let d = if is_ascii_alphanumeric(c) || c == '_' {
            to_ascii_uppercase(c)
        } else {
            '_'
        };
        out.push(d);
        j = j + 1;
        assert(out@ =~= name@.take(j as int).map_values(|c: char| env_char(c)));
    }
    assert(name@.take(name.len() as int) =~= name@);
    out
}

fn assign(name: Vec<char>, value: &Vec<char>) -> (r: Vec<char>)
    ensures
        r@ == assignment(name@, value@),
{
    let mut r = name;
    r.push('=');
    extend(&mut r, value);
    r
}

/// Closes the parents indented at `indent` or deeper.
fn pop_frames(stack: &mut Vec<Frame>, indent: usize)
    ensures
        frames_view(final(stack)@) == pop_to(frames_view(old(stack)@), indent as nat),
{
    while stack.len() > 0 && stack[stack.len() - 1].indent >= indent
        invariant
            pop_to(frames_view(stack@), indent as nat) == pop_to(frames_view(old(stack)@), indent as nat),
        decreases stack.len(),
    {
        let ghost before = stack@;
        stack.pop();
        assert(frames_view(stack@) =~= frames_view(before).drop_last());
    }
}

impl Flattener {
    /// No open parents, no root sequence yet.
    pub fn new() -> (r: Flattener)
        ensures
            r@ == initial_model(),
    {
        let r = Flattener { stack: Vec::new(), root_seq_next: 0 };
        assert(r@.stack =~= Seq::<FrameModel>::empty());
        r
    }

    /// Whether one more sequence item can be numbered at every level.
    pub fn has_room(&self) -> (b: bool)
        ensures
            b == counters_at_most(self@, (usize::MAX - 1) as nat),
    {
        if self.root_seq_next == usize::MAX {
            return false;
        }
        let mut i: usize = 0;
        while i < self.stack.len()
            invariant
                i <= self.stack.len(),
                forall|k: int|
                    0 <= k < i ==> match #[trigger] self@.stack[k].seq_next {
                        Some(n) => n <= usize::MAX - 1,
                        None => true,
                    },
            decreases self.stack.len() - i,
        {
            match self.stack[i].seq_next {
                Some(n) => {
                    if n == usize::MAX {
                        assert(self@.stack[i as int].seq_next == Some(n as nat));
                        return false;
                    }
                },
                None => {},
            }
            assert(self@.stack[i as int] == self.stack@[i as int]@);
            i = i + 1;
        }
        true
    }

    /// A `- ...` line: numbers the item, then opens it as a parent or
    /// writes its scalar.
    fn handle_seq_item(&mut self, dash_indent: usize, after_dash: &Vec<char>) -> (r: Option<
        Vec<char>,
    >)
        requires
            dash_indent + 1 + byte_len(after_dash@) <= usize::MAX,
            counters_at_most(old(self)@, (usize::MAX - 1) as nat),
        ensures
            (final(self)@, opt_chars(r)) == seq_item_step(old(self)@, dash_indent as nat, after_dash@),
            stack_wf(old(self)@.stack) ==> stack_wf(final(self)@.stack),
    {
        assert(stack_wf(self@.stack) ==> stack_wf(
            seq_item_step(self@, dash_indent as nat, after_dash@).0.stack,
        )) by {
            if stack_wf(self@.stack) {
                lemma_seq_item_step_wf(self@, dash_indent as nat, after_dash@);
            }
        }
        let ghost st = self@;
        pop_frames(&mut self.stack, dash_indent);
        let ghost popped = pop_to(st.stack, dash_indent as nat);
        proof {
            let k = lemma_pop_to(st.stack, dash_indent as nat);
        }
        let n = self.stack.len();
        let idx: usize;
        if n > 0 {
            let mut top = self.stack.pop().unwrap();
            assert(popped.last() == top@);
            idx = match top.seq_next {
                Some(k) => k,
                None => 0,
            };
            assert(idx <= usize::MAX - 1) by {
                assert(st.stack[n - 1] == popped[n - 1]);
                assert(counters_at_most(st, (usize::MAX - 1) as nat));
                assert(match st.stack[n - 1].seq_next {
                    Some(m) => m <= usize::MAX - 1,
                    None => true,
                });
                assert(top@.seq_next == opt_nat(top.seq_next));
            }
            top.seq_next = Some(idx + 1);
            self.stack.push(top);
        } else {
            idx = self.root_seq_next;
            self.root_seq_next = idx + 1;
        }
        assert(frames_view(self.stack@) =~= (if n > 0 {
            popped.update(
                n - 1,
                FrameModel {
                    indent: popped.last().indent,
                    name: popped.last().name,
                    seq_next: Some((idx + 1) as nat),
                },
            )
        } else {
            popped
        }));
        let k = trim_start_index(after_dash);
        let inner = subvec(after_dash, k, after_dash.len());
        assert(inner@ == trim_start(after_dash@));
        let name = to_decimal(idx);
        if inner.len() == 0 {
            let ghost before = self.stack@;
            self.stack.push(Frame { indent: dash_indent, name, seq_next: None });
            assert(frames_view(self.stack@) =~= frames_view(before).push(self.stack@.last()@));
            return None;
        }
        if seq_item_is_mapping(&inner) {
            let ghost before = self.stack@;
            self.stack.push(Frame { indent: dash_indent, name, seq_next: None });
            assert(frames_view(self.stack@) =~= frames_view(before).push(self.stack@.last()@));
            let (key, value) = split_key_value(&inner);
            match value {
                None => {
                    proof {
                        lemma_byte_len_subrange(after_dash@, 0, k as int);
                        assert(after_dash@.subrange(0, k as int) == after_dash@.take(k as int));
                    }
                    let ws = byte_len_of(after_dash, 0, k);
                    let content_start = dash_indent + 1 + ws;
                    let ghost before2 = self.stack@;
                    self.stack.push(Frame { indent: content_start, name: key, seq_next: None });
                    assert(frames_view(self.stack@) =~= frames_view(before2).push(
                        self.stack@.last()@,
                    ));
                    None
                },
                Some(v) => {
                    let var = env_var_name(&self.stack, &key);
                    Some(assign(var, &v))
                },
            }
        } else {
            let value = strip_comment(&inner);
            let var = env_var_name(&self.stack, &name);
            Some(assign(var, &value))
        }
    }

    /// One input line: updates the open parents and returns the
    /// assignment the line writes, if any.
    fn process(&mut self, line: &Vec<char>) -> (r: Option<Vec<char>>)
        requires
            byte_len(line@) <= usize::MAX,
            counters_at_most(old(self)@, (usize::MAX - 1) as nat),
        ensures
            (final(self)@, opt_chars(r)) == step(old(self)@, line@),
    {
        let te = trim_end_index(line);
        let trimmed = subvec(line, 0, te);
        assert(trimmed@ == trim_end(line@));
        let lead = trim_start_index(&trimmed);
        if lead == trimmed.len() || trimmed[lead] == '#' {
            return None;
        }
        proof {
            lemma_byte_len_subrange(line@, 0, te as int);
            lemma_byte_len_subrange(trimmed@, 0, lead as int);
            assert(trimmed@.subrange(0, lead as int) == trimmed@.take(lead as int));
        }
        let indent = byte_len_of(&trimmed, 0, lead);
        let content = subvec(&trimmed, lead, trimmed.len());
        assert(content@ == trim_start(trimmed@));
        if content[0] == '-' && (content.len() == 1 || is_whitespace(content[1])) {
            let after = subvec(&content, 1, content.len());
            assert(after@ == content@.drop_first());
            proof {
                lemma_byte_len_append(trimmed@.take(lead as int), content@);
                assert(trimmed@.take(lead as int) + content@ =~= trimmed@);
                assert(utf8_width(content@[0]) == 1);
            }
            return self.handle_seq_item(indent, &after);
        }
        pop_frames(&mut self.stack, indent);
        let (key, value) = split_key_value(&content);
        match value {
            None => {
                let ghost before = self.stack@;
                self.stack.push(Frame { indent, name: key, seq_next: None });
                assert(frames_view(self.stack@) =~= frames_view(before).push(self.stack@.last()@));
                None
            },
            Some(v) => {
                let var = env_var_name(&self.stack, &key);
                Some(assign(var, &v))
            },
        }
    }

    /// Feeds one line of YAML; returns the `KEY=VALUE` assignment it
    /// yields, if any.
    pub fn feed_line(&mut self, line: &str) -> (r: Option<String>)
        requires
            counters_at_most(old(self)@, (usize::MAX - 1) as nat),
        ensures
            (final(self)@, opt_string(r)) == step(old(self)@, line@),
            stack_wf(old(self)@.stack) ==> stack_wf(final(self)@.stack),
    {
        proof {
            if stack_wf(self@.stack) {
                lemma_step_keeps_stack_wf(self@, line@);
            }
        }
        let chars = chars_with_len(line);
        match self.process(&chars) {
            Some(a) => Some(string_from_chars(&a)),
            None => None,
        }
    }
}

/// Converts YAML text to `KEY=VALUE` lines, one per scalar leaf, each
/// ending in `'\n'`.
pub fn convert(input: &str) -> (out: String)
    ensures
        out@ == flatten_text(input@),
{
    let chars = chars_with_len(input);
    let ls = split_lines(&chars);
    proof {
        lemma_lines_from_len(chars@, Seq::empty());
        assert(byte_len(Seq::<char>::empty()) == 0);
    }
    let ghost all = lines(chars@);
    let mut st = Flattener::new();
    let mut out: Vec<char> = Vec::new();
    let ghost mut outs: Seq<Seq<char>> = Seq::empty();
    let mut i: usize = 0;
    assert(all.take(0) =~= Seq::<Seq<char>>::empty());
    while i < ls.len()
        invariant
            i <= ls.len(),
            ls@.len() == all.len(),
            all == lines(chars@),
            all.len() <= chars@.len(),
            forall|k: int| 0 <= k < ls@.len() ==> (#[trigger] ls@[k])@ == all[k],
            forall|k: int| 0 <= k < all.len() ==> byte_len(#[trigger] all[k]) <= byte_len(chars@),
            byte_len(chars@) <= usize::MAX,
            (st@, outs) == run(initial_model(), all.take(i as int)),
            out@ == terminated_text(outs),
            counters_at_most(st@, i as nat),
        decreases ls.len() - i,
    {
        proof {
            assert(all.take(i + 1).drop_last() =~= all.take(i as int));
            assert(all.take(i + 1).last() == all[i as int]);
            lemma_step_counters(st@, all[i as int], i as nat);
        }
        match st.process(&ls[i]) {
            Some(a) => {
                extend(&mut out, &a);
                out.push('\n');
                proof {
                    assert(terminated_text(outs.push(a@)).len() > 0);
                    assert(outs.push(a@).drop_last() =~= outs);
                    outs = outs.push(a@);
                }
            },
            None => {},
        }
        i = i + 1;
    }
    assert(all.take(ls.len() as int) =~= all);
    string_from_chars(&out)
}

} // verus!
