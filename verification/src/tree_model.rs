//! The mathematical model of the classification tree: ghost mirrors of the
//! tree nodes and of the parser state, and the functions over them that the
//! contracts of the executable code speak of.

use vstd::prelude::*;
use crate::lex::lex_lt;
use crate::lex::lex_le;
use crate::clinical_code::CodeV;
use crate::clinical_code::store_contains_name;
use crate::clinical_code::store_index_of;
use crate::clinical_code::store_wf;

verus! {

broadcast use vstd::seq::group_seq_axioms;

/// Why a description was rejected.
#[derive(Clone, Copy, Debug, PartialEq, Eq, Structural)]
pub enum ParseError {
    /// A line of the description is not a well-formed record.
    Syntax,
    /// The end of a category range precedes its start.
    MalformedRange,
    /// A sibling does not come strictly after the span of the one before
    /// it.
    SiblingOrder,
    /// A category closed without any child.
    EmptyCategory,
    /// A code name occurred twice.
    DuplicateName,
    /// A close record occurred with no open category.
    UnmatchedEnd,
    /// The description ended with a category still open.
    UnclosedCategory,
}

/// Ghost mirror of a tree node: a category spanning a lexicographic range,
/// or a single code.
pub ghost enum NodeV {
    Category { start: Seq<char>, end: Seq<char>, tags: Seq<Seq<char>>, children: Seq<NodeV> },
    Code { name: Seq<char>, docs: Seq<char>, tags: Seq<Seq<char>> },
}

/// Ghost mirror of one record of the description.
pub ghost enum RowV {
    Category { start: Seq<char>, end: Seq<char>, tags: Seq<Seq<char>> },
    Code { name: Seq<char>, docs: Seq<char>, tags: Seq<Seq<char>> },
    End,
}

/// Ghost mirror of an open category while the description is read.
pub ghost struct FrameV {
    pub start: Seq<char>,
    pub end: Seq<char>,
    pub tags: Seq<Seq<char>>,
    pub children: Seq<NodeV>,
}

/// Ghost mirror of the whole parser state: finished roots, open
/// categories (outermost first), and the code names seen so far.
pub ghost struct BuildV {
    pub done: Seq<NodeV>,
    pub stack: Seq<FrameV>,
    pub names: Seq<Seq<char>>,
}

/// Start of the span a node covers.
pub open spec fn node_start(n: NodeV) -> Seq<char> {
    match n {
        NodeV::Category { start, .. } => start,
        NodeV::Code { name, .. } => name,
    }
}

/// End of the span a node covers (the code name itself for a code).
pub open spec fn node_end(n: NodeV) -> Seq<char> {
    match n {
        NodeV::Category { end, .. } => end,
        NodeV::Code { name, .. } => name,
    }
}

/// Siblings stand in strictly ascending order with non-overlapping spans:
/// each starts strictly after the span of the one before it ends.
pub open spec fn siblings_ordered(s: Seq<NodeV>) -> bool {
    forall|i: int| 0 <= i && i + 1 < s.len() ==> lex_lt(node_end(#[trigger] s[i]), node_start(s[i + 1]))
}

/// Structural well-formedness of a node: valid range, at least one child,
/// and ordered, well-formed children, recursively.
pub open spec fn node_wf(n: NodeV) -> bool
    decreases n,
{
    match n {
        NodeV::Code { .. } => true,
        NodeV::Category { start, end, children, .. } => {
            &&& lex_le(start, end)
            &&& children.len() >= 1
            &&& siblings_ordered(children)
            &&& forest_wf(children)
        },
    }
}

/// Structural well-formedness of every node of a forest.
pub open spec fn forest_wf(s: Seq<NodeV>) -> bool
    decreases s,
{
    if s.len() == 0 {
        true
    } else {
        node_wf(s[0]) && forest_wf(s.drop_first())
    }
}

/// All group tags attached anywhere in a node's subtree.
pub open spec fn node_tags(n: NodeV) -> Set<Seq<char>>
    decreases n,
{
    match n {
        NodeV::Code { tags, .. } => tags.to_set(),
        NodeV::Category { tags, children, .. } => tags.to_set().union(forest_tags(children)),
    }
}

/// All group tags attached anywhere in a forest.
pub open spec fn forest_tags(s: Seq<NodeV>) -> Set<Seq<char>>
    decreases s,
{
    if s.len() == 0 {
        Set::empty()
    } else {
        node_tags(s[0]).union(forest_tags(s.drop_first()))
    }
}

/// The codes of a node's subtree that belong to group `g`, as
/// (name, docs) pairs in depth-first order. A tag on a category covers
/// its whole subtree, which `inherited` carries downward.
pub open spec fn node_group_items(n: NodeV, g: Seq<char>, inherited: bool) -> Seq<
    (Seq<char>, Seq<char>),
>
    decreases n,
{
    match n {
        NodeV::Code { name, docs, tags } => {
            if inherited || tags.contains(g) {
                seq![(name, docs)]
            } else {
                Seq::empty()
            }
        },
        NodeV::Category { tags, children, .. } => {
            forest_group_items(children, g, inherited || tags.contains(g))
        },
    }
}

/// The codes of a forest that belong to group `g`, in depth-first order.
pub open spec fn forest_group_items(s: Seq<NodeV>, g: Seq<char>, inherited: bool) -> Seq<
    (Seq<char>, Seq<char>),
>
    decreases s,
{
    if s.len() == 0 {
        Seq::empty()
    } else {
        node_group_items(s[0], g, inherited) + forest_group_items(s.drop_first(), g, inherited)
    }
}

/// The siblings an appended node would join: the finished roots when no
/// category is open, else the children of the innermost open category.
pub open spec fn top_children(st: BuildV) -> Seq<NodeV> {
    if st.stack.len() == 0 {
        st.done
    } else {
        st.stack.last().children
    }
}

/// Whether a node may be appended at the current level without breaking
/// the sibling order.
pub open spec fn can_append(st: BuildV, n: NodeV) -> bool {
    top_children(st).len() == 0 || lex_lt(node_end(top_children(st).last()), node_start(n))
}

/// Append a finished node at the current level.
pub open spec fn append_child(st: BuildV, n: NodeV) -> BuildV {
    if st.stack.len() == 0 {
        BuildV { done: st.done.push(n), stack: st.stack, names: st.names }
    } else {
        let f = st.stack.last();
        let f2 = FrameV { start: f.start, end: f.end, tags: f.tags, children: f.children.push(n) };
        BuildV {
            done: st.done,
            stack: st.stack.update(st.stack.len() - 1, f2),
            names: st.names,
        }
    }
}

/// One step of reading the description: how a record transforms the
/// parser state, or which error it raises.
pub open spec fn build_step(st: BuildV, row: RowV) -> Result<BuildV, ParseError> {
    match row {
        RowV::Category { start, end, tags } => {
            if !lex_le(start, end) {
                Err(ParseError::MalformedRange)
            } else {
                Ok(
                    BuildV {
                        done: st.done,
                        stack: st.stack.push(
                            FrameV { start, end, tags, children: Seq::empty() },
                        ),
                        names: st.names,
                    },
                )
            }
        },
        RowV::Code { name, docs, tags } => {
            if st.names.contains(name) {
                Err(ParseError::DuplicateName)
            } else if !can_append(st, NodeV::Code { name, docs, tags }) {
                Err(ParseError::SiblingOrder)
            } else {
                let st1 = append_child(st, NodeV::Code { name, docs, tags });
                Ok(BuildV { done: st1.done, stack: st1.stack, names: st.names.push(name) })
            }
        },
        RowV::End => {
            if st.stack.len() == 0 {
                Err(ParseError::UnmatchedEnd)
            } else {
                let f = st.stack.last();
                if f.children.len() == 0 {
                    Err(ParseError::EmptyCategory)
                } else {
                    let n = NodeV::Category {
                        start: f.start,
                        end: f.end,
                        tags: f.tags,
                        children: f.children,
                    };
                    let st0 = BuildV {
                        done: st.done,
                        stack: st.stack.drop_last(),
                        names: st.names,
                    };
                    if !can_append(st0, n) {
                        Err(ParseError::SiblingOrder)
                    } else {
                        Ok(append_child(st0, n))
                    }
                }
            }
        },
    }
}

/// The parser state before any record is read.
pub open spec fn build_init() -> BuildV {
    BuildV { done: Seq::empty(), stack: Seq::empty(), names: Seq::empty() }
}

/// Reading a sequence of records from a state: the resulting state, or
/// the first error raised.
pub open spec fn build_run(st: BuildV, rows: Seq<RowV>) -> Result<BuildV, ParseError>
    decreases rows.len(),
{
    if rows.len() == 0 {
        Ok(st)
    } else {
        match build_step(st, rows[0]) {
            Err(e) => Err(e),
            Ok(st2) => build_run(st2, rows.drop_first()),
        }
    }
}

/// Position of the first occurrence of `sep` in `s`, or the length of `s`
/// when it does not occur.
pub open spec fn find_char(s: Seq<char>, sep: char) -> int
    decreases s.len(),
{
    if s.len() == 0 {
        0
    } else if s[0] == sep {
        0
    } else {
        1 + find_char(s.drop_first(), sep)
    }
}

/// The first occurrence of `sep` is within bounds, carries `sep`, and
/// nothing before it does.
pub proof fn lemma_find_char(s: Seq<char>, sep: char)
    ensures
        0 <= find_char(s, sep) <= s.len(),
        find_char(s, sep) < s.len() ==> s[find_char(s, sep)] == sep,
        forall|j: int| 0 <= j < find_char(s, sep) ==> s[j] != sep,
    decreases s.len(),
{
    if s.len() > 0 && s[0] != sep {
        lemma_find_char(s.drop_first(), sep);
        assert(find_char(s, sep) == 1 + find_char(s.drop_first(), sep));
        if find_char(s, sep) < s.len() {
            assert(s[find_char(s, sep)] == s.drop_first()[find_char(s.drop_first(), sep)]);
        }
        assert forall|j: int| 0 <= j < find_char(s, sep) implies s[j] != sep by {
            if j > 0 {
                assert(s[j] == s.drop_first()[j - 1]);
            }
        }
    }
}

/// Split `s` at every occurrence of `sep`: the separated pieces, in
/// order, none containing `sep`.
pub open spec fn split_on(s: Seq<char>, sep: char) -> Seq<Seq<char>>
    decreases s.len(),
{
    let i = find_char(s, sep);
    if i == s.len() {
        seq![s]
    } else {
        proof {
            lemma_find_char(s, sep);
        }
        seq![s.take(i)] + split_on(s.skip(i + 1), sep)
    }
}

/// A one-character field holding exactly `c`.
pub open spec fn is_marker(f: Seq<char>, c: char) -> bool {
    f.len() == 1 && f[0] == c
}

/// The tags field of a record: empty means no tags, otherwise the
/// comma-separated pieces, each of which must be non-empty.
pub open spec fn parse_tags_spec(f: Seq<char>) -> Option<Seq<Seq<char>>> {
    if f.len() == 0 {
        Some(Seq::empty())
    } else {
        let ps = split_on(f, ',');
        if exists|i: int| 0 <= i < ps.len() && (#[trigger] ps[i]).len() == 0 {
            None
        } else {
            Some(ps)
        }
    }
}

/// One line of the description: a category record `C;start;end;tags`, a
/// code record `L;name;docs;tags`, or a close record `E`.
pub open spec fn parse_row_spec(line: Seq<char>) -> Option<RowV> {
    let fs = split_on(line, ';');
    if fs.len() == 1 && is_marker(fs[0], 'E') {
        Some(RowV::End)
    } else if fs.len() == 4 && is_marker(fs[0], 'C') {
        match parse_tags_spec(fs[3]) {
            None => None,
            Some(tags) => Some(RowV::Category { start: fs[1], end: fs[2], tags }),
        }
    } else if fs.len() == 4 && is_marker(fs[0], 'L') {
        match parse_tags_spec(fs[3]) {
            None => None,
            Some(tags) => Some(RowV::Code { name: fs[1], docs: fs[2], tags }),
        }
    } else {
        None
    }
}

/// The lines of the description: newline-separated, with one trailing
/// newline tolerated.
pub open spec fn description_lines(input: Seq<char>) -> Seq<Seq<char>> {
    let ls = split_on(input, '\n');
    if ls.len() > 0 && ls.last().len() == 0 {
        ls.drop_last()
    } else {
        ls
    }
}

/// Every line parsed as a record, or nothing when one fails.
pub open spec fn parse_rows_spec(lines: Seq<Seq<char>>) -> Option<Seq<RowV>>
    decreases lines.len(),
{
    if lines.len() == 0 {
        Some(Seq::empty())
    } else {
        match parse_row_spec(lines[0]) {
            None => None,
            Some(r) => match parse_rows_spec(lines.drop_first()) {
                None => None,
                Some(rs) => Some(seq![r] + rs),
            },
        }
    }
}

/// What parsing a whole description yields: the forest of root nodes, or
/// the error that rejects it.
pub open spec fn description_outcome(input: Seq<char>) -> Result<Seq<NodeV>, ParseError> {
    match parse_rows_spec(description_lines(input)) {
        None => Err(ParseError::Syntax),
        Some(rows) => match build_run(build_init(), rows) {
            Err(e) => Err(e),
            Ok(st) => {
                if st.stack.len() > 0 {
                    Err(ParseError::UnclosedCategory)
                } else {
                    Ok(st.done)
                }
            },
        },
    }
}

/// The structural invariant the parser state keeps: finished roots and
/// the children of every open category are ordered and well-formed, and
/// every open category has a valid range.
pub open spec fn build_inv(st: BuildV) -> bool {
    &&& siblings_ordered(st.done)
    &&& forest_wf(st.done)
    &&& forall|k: int|
        0 <= k < st.stack.len() ==> {
            &&& lex_le((#[trigger] st.stack[k]).start, st.stack[k].end)
            &&& siblings_ordered(st.stack[k].children)
            &&& forest_wf(st.stack[k].children)
        }
}

/// Appending a well-formed node keeps a forest well-formed.
pub proof fn lemma_forest_wf_push(s: Seq<NodeV>, n: NodeV)
    requires
        forest_wf(s),
        node_wf(n),
    ensures
        forest_wf(s.push(n)),
    decreases s.len(),
{
    if s.len() == 0 {
        assert(s.push(n)[0] == n);
        assert(s.push(n).drop_first() =~= Seq::<NodeV>::empty());
        assert(forest_wf(s.push(n).drop_first()));
        assert(forest_wf(s.push(n))) by {
            reveal_with_fuel(forest_wf, 2);
        }
    } else {
        assert(node_wf(s[0]));
        assert(s.push(n)[0] == s[0]);
        assert(s.push(n).drop_first() =~= s.drop_first().push(n));
        lemma_forest_wf_push(s.drop_first(), n);
        assert(forest_wf(s.push(n).drop_first()));
        assert(forest_wf(s.push(n))) by {
            reveal_with_fuel(forest_wf, 2);
        }
    }
}

/// Appending a node that starts after the last sibling ends keeps the
/// sibling order.
pub proof fn lemma_siblings_ordered_push(s: Seq<NodeV>, n: NodeV)
    requires
        siblings_ordered(s),
        s.len() == 0 || lex_lt(node_end(s.last()), node_start(n)),
    ensures
        siblings_ordered(s.push(n)),
{
    let s2 = s.push(n);
    assert forall|i: int| 0 <= i && i + 1 < s2.len() implies lex_lt(
        node_end(#[trigger] s2[i]),
        node_start(s2[i + 1]),
    ) by {
        if i + 1 < s.len() {
            assert(lex_lt(node_end(s[i]), node_start(s[i + 1])));
        } else {
            assert(s2[i] == s.last());
            assert(s2[i + 1] == n);
        }
    }
}

/// One build step keeps the structural invariant.
pub proof fn lemma_build_step_inv(st: BuildV, row: RowV)
    requires
        build_inv(st),
        build_step(st, row) is Ok,
    ensures
        build_inv(build_step(st, row)->Ok_0),
{
    match row {
        RowV::Category { .. } => {
        },
        RowV::Code { name, docs, tags } => {
            let n = NodeV::Code { name, docs, tags };
            lemma_append_child_inv(st, n);
        },
        RowV::End => {
            let f = st.stack.last();
            let n = NodeV::Category {
                start: f.start,
                end: f.end,
                tags: f.tags,
                children: f.children,
            };
            let st0 = BuildV { done: st.done, stack: st.stack.drop_last(), names: st.names };
            assert(st.stack[st.stack.len() - 1] == f);
            assert(node_wf(n));
            lemma_append_child_inv(st0, n);
        },
    }
}

/// Whether every line is a record is decided line by line, and the
/// records are the lines' records in order.
pub proof fn lemma_parse_rows_elements(lines: Seq<Seq<char>>)
    ensures
        parse_rows_spec(lines) is Some <==> (forall|j: int|
            0 <= j < lines.len() ==> parse_row_spec(#[trigger] lines[j]) is Some),
        parse_rows_spec(lines) is Some ==> parse_rows_spec(lines)->Some_0.len() == lines.len(),
        parse_rows_spec(lines) is Some ==> forall|j: int|
            0 <= j < lines.len() ==> parse_rows_spec(lines)->Some_0[j] == parse_row_spec(
                #[trigger] lines[j],
            )->Some_0,
    decreases lines.len(),
{
    if lines.len() > 0 {
        lemma_parse_rows_elements(lines.drop_first());
        assert(forall|j: int|
            1 <= j < lines.len() ==> #[trigger] lines[j] == lines.drop_first()[j - 1]);
        if parse_rows_spec(lines) is Some {
            let r = parse_row_spec(lines[0])->Some_0;
            let rs = parse_rows_spec(lines.drop_first())->Some_0;
            assert(parse_rows_spec(lines)->Some_0 == seq![r] + rs);
            assert forall|j: int| 0 <= j < lines.len() implies parse_rows_spec(lines)->Some_0[j]
                == parse_row_spec(#[trigger] lines[j])->Some_0 by {
                if j > 0 {
                    assert((seq![r] + rs)[j] == rs[j - 1]);
                }
            }
        }
        if forall|j: int| 0 <= j < lines.len() ==> parse_row_spec(#[trigger] lines[j]) is Some {
            assert(parse_row_spec(lines[0]) is Some);
            assert(parse_rows_spec(lines.drop_first()) is Some);
        }
    }
}

/// Reading the records can be cut at any point: the outcome is the
/// outcome of the first part continued with the rest.
pub proof fn lemma_build_run_split(st: BuildV, rows: Seq<RowV>, j: int)
    requires
        0 <= j <= rows.len(),
    ensures
        build_run(st, rows) == (match build_run(st, rows.take(j)) {
            Err(e) => Err::<BuildV, ParseError>(e),
            Ok(st2) => build_run(st2, rows.skip(j)),
        }),
    decreases j,
{
    if j == 0 {
        assert(rows.take(0) =~= Seq::<RowV>::empty());
        assert(rows.skip(0) =~= rows);
    } else {
        assert(rows.take(j)[0] == rows[0]);
        match build_step(st, rows[0]) {
            Err(e) => {
            },
            Ok(st2) => {
                lemma_build_run_split(st2, rows.drop_first(), j - 1);
                assert(rows.take(j).drop_first() =~= rows.drop_first().take(j - 1));
                assert(rows.skip(j) =~= rows.drop_first().skip(j - 1));
            },
        }
    }
}

/// The tags of a forest grown by one node are the forest's tags and the
/// node's.
pub proof fn lemma_forest_tags_push(s: Seq<NodeV>, n: NodeV)
    ensures
        forest_tags(s.push(n)) == forest_tags(s).union(node_tags(n)),
    decreases s.len(),
{
    if s.len() == 0 {
        assert(s =~= Seq::<NodeV>::empty());
        assert(s.push(n)[0] == n);
        assert(s.push(n).drop_first() =~= s);
        assert(forest_tags(s.push(n)) =~= forest_tags(s).union(node_tags(n)));
    } else {
        assert(s.push(n)[0] == s[0]);
        assert(s.push(n).drop_first() =~= s.drop_first().push(n));
        lemma_forest_tags_push(s.drop_first(), n);
        assert(forest_tags(s.push(n)) =~= forest_tags(s).union(node_tags(n)));
    }
}

/// The group items of a forest grown by one node are the forest's items
/// followed by the node's.
pub proof fn lemma_forest_group_items_push(s: Seq<NodeV>, n: NodeV, g: Seq<char>, inherited: bool)
    ensures
        forest_group_items(s.push(n), g, inherited) == forest_group_items(s, g, inherited)
            + node_group_items(n, g, inherited),
    decreases s.len(),
{
    if s.len() == 0 {
        assert(s =~= Seq::<NodeV>::empty());
        assert(s.push(n)[0] == n);
        assert(s.push(n).drop_first() =~= s);
        assert(forest_group_items(s.push(n), g, inherited) =~= forest_group_items(s, g, inherited)
            + node_group_items(n, g, inherited));
    } else {
        assert(s.push(n)[0] == s[0]);
        assert(s.push(n).drop_first() =~= s.drop_first().push(n));
        lemma_forest_group_items_push(s.drop_first(), n, g, inherited);
        assert(forest_group_items(s.push(n), g, inherited) =~= forest_group_items(s, g, inherited)
            + node_group_items(n, g, inherited));
    }
}

/// Interning one item: the position of the record already carrying the
/// name, or the store grown by a new record.
pub open spec fn intern_one(s: Seq<CodeV>, name: Seq<char>, docs: Seq<char>) -> (Seq<CodeV>, int) {
    if store_contains_name(s, name) {
        (s, store_index_of(s, name))
    } else {
        (s.push(CodeV { name, docs }), s.len() as int)
    }
}

/// Interning a sequence of items, left to right: the final store and the
/// positions handed out, in order.
pub open spec fn intern_seq(s: Seq<CodeV>, items: Seq<(Seq<char>, Seq<char>)>) -> (
    Seq<CodeV>,
    Seq<int>,
)
    decreases items.len(),
{
    if items.len() == 0 {
        (s, Seq::<int>::empty())
    } else {
        let first = intern_one(s, items[0].0, items[0].1);
        let rest = intern_seq(first.0, items.drop_first());
        (rest.0, seq![first.1] + rest.1)
    }
}

/// The tags written on one record.
pub open spec fn row_tags(row: RowV) -> Set<Seq<char>> {
    match row {
        RowV::Category { tags, .. } => tags.to_set(),
        RowV::Code { tags, .. } => tags.to_set(),
        RowV::End => Set::empty(),
    }
}

/// The tags written anywhere in a sequence of records.
pub open spec fn rows_tags(rows: Seq<RowV>) -> Set<Seq<char>>
    decreases rows.len(),
{
    if rows.len() == 0 {
        Set::empty()
    } else {
        row_tags(rows[0]).union(rows_tags(rows.drop_first()))
    }
}

/// The tags an open category holds: its own and its children's.
pub open spec fn frame_tags(f: FrameV) -> Set<Seq<char>> {
    f.tags.to_set().union(forest_tags(f.children))
}

/// The tags all open categories hold, innermost first.
pub open spec fn frames_tags(fs: Seq<FrameV>) -> Set<Seq<char>>
    decreases fs.len(),
{
    if fs.len() == 0 {
        Set::empty()
    } else {
        frame_tags(fs.last()).union(frames_tags(fs.drop_last()))
    }
}

/// The tags the whole parser state holds.
pub open spec fn state_tags(st: BuildV) -> Set<Seq<char>> {
    forest_tags(st.done).union(frames_tags(st.stack))
}

/// Appending a node adds exactly its tags to the state.
proof fn lemma_append_child_tags(st: BuildV, n: NodeV)
    ensures
        state_tags(append_child(st, n)) == state_tags(st).union(node_tags(n)),
{
    if st.stack.len() == 0 {
        lemma_forest_tags_push(st.done, n);
        assert(state_tags(append_child(st, n)) =~= state_tags(st).union(node_tags(n)));
    } else {
        let f = st.stack.last();
        lemma_forest_tags_push(f.children, n);
        let st2 = append_child(st, n);
        assert(st2.stack.last() == FrameV {
            start: f.start,
            end: f.end,
            tags: f.tags,
            children: f.children.push(n),
        });
        assert(st2.stack.drop_last() =~= st.stack.drop_last());
        assert(frame_tags(st2.stack.last()) =~= frame_tags(f).union(node_tags(n)));
        assert(state_tags(st2) =~= state_tags(st).union(node_tags(n)));
    }
}

/// One accepted record adds exactly its tags to the state.
pub proof fn lemma_build_step_tags(st: BuildV, row: RowV)
    requires
        build_step(st, row) is Ok,
    ensures
        state_tags(build_step(st, row)->Ok_0) == state_tags(st).union(row_tags(row)),
{
    let st2 = build_step(st, row)->Ok_0;
    match row {
        RowV::Category { start, end, tags } => {
            assert(st2.stack.drop_last() =~= st.stack);
            assert(forest_tags(st2.stack.last().children) =~= Set::<Seq<char>>::empty());
            assert(state_tags(st2) =~= state_tags(st).union(row_tags(row)));
        },
        RowV::Code { name, docs, tags } => {
            let n = NodeV::Code { name, docs, tags };
            assert(node_tags(n) =~= tags.to_set());
            lemma_append_child_tags(st, n);
            assert(state_tags(st2) =~= state_tags(st).union(row_tags(row)));
        },
        RowV::End => {
            let f = st.stack.last();
            let n = NodeV::Category {
                start: f.start,
                end: f.end,
                tags: f.tags,
                children: f.children,
            };
            let st0 = BuildV { done: st.done, stack: st.stack.drop_last(), names: st.names };
            assert(node_tags(n) =~= frame_tags(f));
            assert(state_tags(st0).union(frame_tags(f)) =~= state_tags(st));
            lemma_append_child_tags(st0, n);
            assert(state_tags(st2) =~= state_tags(st).union(row_tags(row)));
        },
    }
}

/// An accepted run of records adds exactly their tags to the state.
pub proof fn lemma_build_run_tags(st: BuildV, rows: Seq<RowV>)
    requires
        build_run(st, rows) is Ok,
    ensures
        state_tags(build_run(st, rows)->Ok_0) == state_tags(st).union(rows_tags(rows)),
    decreases rows.len(),
{
    if rows.len() == 0 {
        assert(state_tags(st).union(rows_tags(rows)) =~= state_tags(st));
    } else {
        let st1 = build_step(st, rows[0])->Ok_0;
        lemma_build_step_tags(st, rows[0]);
        lemma_build_run_tags(st1, rows.drop_first());
        assert(state_tags(build_run(st, rows)->Ok_0) =~= state_tags(st).union(rows_tags(rows)));
    }
}

/// A parsed tree carries exactly the tags written anywhere in its
/// description: no more, no fewer.
pub proof fn lemma_tree_tags_match_description(input: Seq<char>)
    requires
        description_outcome(input) is Ok,
    ensures
        parse_rows_spec(description_lines(input)) is Some,
        forest_tags(description_outcome(input)->Ok_0) == rows_tags(
            parse_rows_spec(description_lines(input))->Some_0,
        ),
{
    let rows = parse_rows_spec(description_lines(input))->Some_0;
    lemma_build_run_tags(build_init(), rows);
    let stf = build_run(build_init(), rows)->Ok_0;
    assert(description_outcome(input)->Ok_0 == stf.done);
    assert(frames_tags(stf.stack) =~= Set::<Seq<char>>::empty());
    assert(state_tags(stf) =~= forest_tags(stf.done));
    assert(forest_tags(build_init().done) =~= Set::<Seq<char>>::empty());
    assert(frames_tags(build_init().stack) =~= Set::<Seq<char>>::empty());
    assert(state_tags(build_init()).union(rows_tags(rows)) =~= rows_tags(rows));
    assert(forest_tags(description_outcome(input)->Ok_0) =~= rows_tags(rows));
}

/// The code names of a node's subtree, in depth-first order.
pub open spec fn node_names(n: NodeV) -> Seq<Seq<char>>
    decreases n,
{
    match n {
        NodeV::Code { name, .. } => seq![name],
        NodeV::Category { children, .. } => forest_names(children),
    }
}

/// The code names of a forest, in depth-first order.
pub open spec fn forest_names(s: Seq<NodeV>) -> Seq<Seq<char>>
    decreases s,
{
    if s.len() == 0 {
        Seq::empty()
    } else {
        node_names(s[0]) + forest_names(s.drop_first())
    }
}

/// The names of a forest grown by one node are the forest's names
/// followed by the node's.
proof fn lemma_forest_names_push(s: Seq<NodeV>, n: NodeV)
    ensures
        forest_names(s.push(n)) == forest_names(s) + node_names(n),
    decreases s.len(),
{
    if s.len() == 0 {
        assert(s =~= Seq::<NodeV>::empty());
        assert(s.push(n)[0] == n);
        assert(s.push(n).drop_first() =~= s);
        assert(forest_names(s.push(n)) =~= forest_names(s) + node_names(n));
    } else {
        assert(s.push(n)[0] == s[0]);
        assert(s.push(n).drop_first() =~= s.drop_first().push(n));
        lemma_forest_names_push(s.drop_first(), n);
        assert(forest_names(s.push(n)) =~= forest_names(s) + node_names(n));
    }
}

/// The code names held by the open categories, outermost first.
pub open spec fn frames_names(fs: Seq<FrameV>) -> Seq<Seq<char>>
    decreases fs.len(),
{
    if fs.len() == 0 {
        Seq::empty()
    } else {
        frames_names(fs.drop_last()) + forest_names(fs.last().children)
    }
}

/// The code names the whole parser state holds, in the order they were
/// read.
pub open spec fn state_names(st: BuildV) -> Seq<Seq<char>> {
    forest_names(st.done) + frames_names(st.stack)
}

/// Appending a node appends exactly its names to the state.
proof fn lemma_append_child_names(st: BuildV, n: NodeV)
    ensures
        state_names(append_child(st, n)) == state_names(st) + node_names(n),
{
    if st.stack.len() == 0 {
        lemma_forest_names_push(st.done, n);
        assert(state_names(append_child(st, n)) =~= state_names(st) + node_names(n));
    } else {
        let f = st.stack.last();
        lemma_forest_names_push(f.children, n);
        let st2 = append_child(st, n);
        assert(st2.stack.last() == FrameV {
            start: f.start,
            end: f.end,
            tags: f.tags,
            children: f.children.push(n),
        });
        assert(st2.stack.drop_last() =~= st.stack.drop_last());
        assert(state_names(st2) =~= state_names(st) + node_names(n));
    }
}

/// The record of names the parser keeps lists exactly the names of the
/// nodes built so far, in order, and stays free of duplicates.
pub proof fn lemma_build_step_names(st: BuildV, row: RowV)
    requires
        build_step(st, row) is Ok,
        st.names == state_names(st),
    ensures
        build_step(st, row)->Ok_0.names == state_names(build_step(st, row)->Ok_0),
        st.names.no_duplicates() ==> build_step(st, row)->Ok_0.names.no_duplicates(),
{
    let st2 = build_step(st, row)->Ok_0;
    match row {
        RowV::Category { start, end, tags } => {
            assert(st2.stack.drop_last() =~= st.stack);
            assert(forest_names(st2.stack.last().children) =~= Seq::<Seq<char>>::empty());
            assert(state_names(st2) =~= state_names(st));
        },
        RowV::Code { name, docs, tags } => {
            let n = NodeV::Code { name, docs, tags };
            assert(node_names(n) =~= seq![name]);
            lemma_append_child_names(st, n);
            assert(st2.names =~= state_names(st2));
            if st.names.no_duplicates() {
                assert forall|a: int, b: int| 0 <= a < b < st2.names.len() implies st2.names[a]
                    != st2.names[b] by {
                    if b < st.names.len() {
                        assert(st2.names[a] == st.names[a] && st2.names[b] == st.names[b]);
                    } else {
                        assert(st2.names[b] == name);
                        assert(st2.names[a] == st.names[a]);
                        assert(st.names.contains(st.names[a]));
                    }
                }
            }
        },
        RowV::End => {
            let f = st.stack.last();
            let n = NodeV::Category {
                start: f.start,
                end: f.end,
                tags: f.tags,
                children: f.children,
            };
            let st0 = BuildV { done: st.done, stack: st.stack.drop_last(), names: st.names };
            assert(node_names(n) =~= forest_names(f.children));
            assert(state_names(st0) + forest_names(f.children) =~= state_names(st));
            lemma_append_child_names(st0, n);
            assert(st2.names =~= state_names(st2));
        },
    }
}

/// Interning a concatenation interns the first part, then the second
/// against the store the first part left.
pub proof fn lemma_intern_seq_concat(
    s: Seq<CodeV>,
    a: Seq<(Seq<char>, Seq<char>)>,
    b: Seq<(Seq<char>, Seq<char>)>,
)
    ensures
        intern_seq(s, a + b).0 == intern_seq(intern_seq(s, a).0, b).0,
        intern_seq(s, a + b).1 == intern_seq(s, a).1 + intern_seq(intern_seq(s, a).0, b).1,
    decreases a.len(),
{
    if a.len() == 0 {
        assert(a + b =~= b);
        assert(intern_seq(s, a).1 + intern_seq(intern_seq(s, a).0, b).1 =~= intern_seq(s, b).1);
    } else {
        assert((a + b)[0] == a[0]);
        let first = intern_one(s, a[0].0, a[0].1);
        assert((a + b).drop_first() =~= a.drop_first() + b);
        lemma_intern_seq_concat(first.0, a.drop_first(), b);
        assert(seq![first.1] + (intern_seq(first.0, a.drop_first()).1 + intern_seq(
            intern_seq(s, a).0,
            b,
        ).1) =~= intern_seq(s, a).1 + intern_seq(intern_seq(s, a).0, b).1);
    }
}

/// Interning preserves well-formedness and the records already held, and
/// each position handed out carries the item's name.
pub proof fn lemma_intern_seq_props(s: Seq<CodeV>, items: Seq<(Seq<char>, Seq<char>)>)
    requires
        store_wf(s),
    ensures
        store_wf(intern_seq(s, items).0),
        intern_seq(s, items).0.len() >= s.len(),
        intern_seq(s, items).0.subrange(0, s.len() as int) == s,
        intern_seq(s, items).1.len() == items.len(),
        forall|k: int|
            0 <= k < items.len() ==> 0 <= #[trigger] intern_seq(s, items).1[k] < intern_seq(
                s,
                items,
            ).0.len(),
        forall|k: int|
            0 <= k < items.len() ==> intern_seq(s, items).0[#[trigger] intern_seq(s, items).1[k]].name
                == items[k].0,
    decreases items.len(),
{
    if items.len() == 0 {
        assert(intern_seq(s, items).0.subrange(0, s.len() as int) =~= s);
    } else {
        let name = items[0].0;
        let docs = items[0].1;
        let first = intern_one(s, name, docs);
        let s1 = first.0;
        let id = first.1;
        if store_contains_name(s, name) {
            assert(0 <= id < s.len() && s[id].name == name);
        } else {
            assert forall|i: int, j: int| 0 <= i < j < s1.len() implies (#[trigger] s1[i]).name
                != (#[trigger] s1[j]).name by {
                if j < s.len() {
                    assert(s1[i] == s[i] && s1[j] == s[j]);
                } else {
                    assert(s1[j].name == name);
                    assert(s1[i] == s[i]);
                }
            }
        }
        lemma_intern_seq_props(s1, items.drop_first());
        let r = intern_seq(s, items);
        let rest = intern_seq(s1, items.drop_first());
        assert(r.0 == rest.0 && r.1 == seq![id] + rest.1);
        assert(rest.0.subrange(0, s1.len() as int) == s1);
        assert forall|i: int| 0 <= i < s1.len() implies rest.0[i] == s1[i] by {
            assert(rest.0.subrange(0, s1.len() as int)[i] == rest.0[i]);
        }
        assert(r.0.subrange(0, s.len() as int) =~= s);
        assert(0 <= id < s1.len() && s1[id].name == name);
        assert(r.0[id].name == name);
        assert forall|k: int| 0 <= k < items.len() implies 0 <= #[trigger] r.1[k] < r.0.len()
            && r.0[r.1[k]].name == items[k].0 by {
            if k == 0 {
                assert(r.1[0] == id);
            } else {
                assert(r.1[k] == rest.1[k - 1]);
                assert(items[k] == items.drop_first()[k - 1]);
            }
        }
    }
}

/// Interning a spelling the store already holds changes nothing and
/// returns the position it already has: interning is idempotent, and two
/// interns of one spelling return the same position.
pub proof fn lemma_intern_idempotent(s: Seq<CodeV>, name: Seq<char>, docs: Seq<char>, docs2: Seq<char>)
    requires
        store_wf(s),
    ensures
        intern_one(intern_one(s, name, docs).0, name, docs2).0 == intern_one(s, name, docs).0,
        intern_one(intern_one(s, name, docs).0, name, docs2).1 == intern_one(s, name, docs).1,
{
    let s1 = intern_one(s, name, docs).0;
    let id1 = intern_one(s, name, docs).1;
    if store_contains_name(s, name) {
        assert(0 <= id1 < s.len() && s[id1].name == name);
    } else {
        assert(s1[s.len() as int].name == name);
        assert(store_contains_name(s1, name));
        assert forall|i: int, j: int| 0 <= i < j < s1.len() implies (#[trigger] s1[i]).name
            != (#[trigger] s1[j]).name by {
            if j < s.len() {
                assert(s1[i] == s[i] && s1[j] == s[j]);
            } else {
                assert(s1[j].name == name);
                assert(s1[i] == s[i]);
            }
        }
    }
    assert(0 <= id1 < s1.len() && s1[id1].name == name);
    let id2 = intern_one(s1, name, docs2).1;
    assert(0 <= id2 < s1.len() && s1[id2].name == name);
    if store_contains_name(s, name) {
        if id1 != id2 {
            if id1 < id2 {
                assert(s1[id1].name != s1[id2].name);
            } else {
                assert(s1[id2].name != s1[id1].name);
            }
        }
    } else {
        assert forall|i: int, j: int| 0 <= i < j < s1.len() implies (#[trigger] s1[i]).name
            != (#[trigger] s1[j]).name by {
            if j < s.len() {
                assert(s1[i] == s[i] && s1[j] == s[j]);
            } else {
                assert(s1[j].name == name);
                assert(s1[i] == s[i]);
            }
        }
        if id1 != id2 {
            if id1 < id2 {
                assert(s1[id1].name != s1[id2].name);
            } else {
                assert(s1[id2].name != s1[id1].name);
            }
        }
    }
}

/// Items with pairwise-distinct names receive pairwise-distinct
/// positions: each such code appears exactly once among the references a
/// resolution hands out.
pub proof fn lemma_intern_seq_distinct(s: Seq<CodeV>, items: Seq<(Seq<char>, Seq<char>)>)
    requires
        store_wf(s),
        forall|k: int, l: int|
            0 <= k < l < items.len() ==> (#[trigger] items[k]).0 != (#[trigger] items[l]).0,
    ensures
        forall|k: int, l: int|
            0 <= k < l < items.len() ==> #[trigger] intern_seq(s, items).1[k]
                != #[trigger] intern_seq(s, items).1[l],
{
    lemma_intern_seq_props(s, items);
    assert forall|k: int, l: int| 0 <= k < l < items.len() implies #[trigger] intern_seq(
        s,
        items,
    ).1[k] != #[trigger] intern_seq(s, items).1[l] by {
        assert(intern_seq(s, items).0[intern_seq(s, items).1[k]].name == items[k].0);
        assert(intern_seq(s, items).0[intern_seq(s, items).1[l]].name == items[l].0);
    }
}

/// Resolving the same items against any two well-formed stores reads
/// back the same sequence of code names: resolution is deterministic and
/// independent of what the stores already hold.
pub proof fn lemma_resolution_names_deterministic(
    s1: Seq<CodeV>,
    s2: Seq<CodeV>,
    items: Seq<(Seq<char>, Seq<char>)>,
)
    requires
        store_wf(s1),
        store_wf(s2),
    ensures
        intern_seq(s1, items).1.len() == intern_seq(s2, items).1.len(),
        forall|k: int|
            0 <= k < items.len() ==> intern_seq(s1, items).0[#[trigger] intern_seq(s1, items).1[k]].name
                == intern_seq(s2, items).0[intern_seq(s2, items).1[k]].name,
{
    lemma_intern_seq_props(s1, items);
    lemma_intern_seq_props(s2, items);
}

/// Appending a well-formed node in order keeps the structural invariant.
proof fn lemma_append_child_inv(st: BuildV, n: NodeV)
    requires
        build_inv(st),
        node_wf(n),
        can_append(st, n),
    ensures
        build_inv(append_child(st, n)),
{
    if st.stack.len() == 0 {
        lemma_siblings_ordered_push(st.done, n);
        lemma_forest_wf_push(st.done, n);
    } else {
        let k = st.stack.len() - 1;
        let f = st.stack.last();
        lemma_siblings_ordered_push(f.children, n);
        lemma_forest_wf_push(f.children, n);
    }
}

} // verus!
