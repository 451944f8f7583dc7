//! The classification tree: parsed once from a serialized description,
//! immutable afterwards, resolving group names to ordered code references.

use vstd::prelude::*;
use vstd::string::StrSliceExecFns;
use vstd::string::StringExecFns;
use crate::lex::str_cmp;
use crate::lex::str_lt;
use crate::lex::str_le;
use crate::clinical_code::ClinicalCodeRef;
use crate::clinical_code::ClinicalCodeStore;
use crate::clinical_code::CodeError;
use crate::clinical_code::store_contains_name;
use crate::clinical_code::CodeV;
use crate::tree_model::ParseError;
use crate::tree_model::NodeV;
use crate::tree_model::RowV;
use crate::tree_model::FrameV;
use crate::tree_model::BuildV;
use crate::tree_model::node_start;
use crate::tree_model::node_end;
use crate::tree_model::siblings_ordered;
use crate::tree_model::forest_wf;
use crate::tree_model::node_tags;
use crate::tree_model::forest_tags;
use crate::tree_model::node_group_items;
use crate::tree_model::forest_group_items;
use crate::tree_model::top_children;
use crate::tree_model::can_append;
use crate::tree_model::append_child;
use crate::tree_model::build_step;
use crate::tree_model::build_init;
use crate::tree_model::build_run;
use crate::tree_model::build_inv;
use crate::tree_model::find_char;
use crate::tree_model::lemma_find_char;
use crate::tree_model::split_on;
use crate::tree_model::is_marker;
use crate::tree_model::parse_tags_spec;
use crate::tree_model::parse_row_spec;
use crate::tree_model::description_lines;
use crate::tree_model::parse_rows_spec;
use crate::tree_model::description_outcome;
use crate::tree_model::lemma_parse_rows_elements;
use crate::tree_model::lemma_build_run_split;
use crate::tree_model::lemma_build_step_inv;
use crate::tree_model::forest_names;
use crate::tree_model::state_names;
use crate::tree_model::lemma_build_step_names;
use crate::tree_model::lemma_forest_tags_push;
use crate::tree_model::lemma_forest_group_items_push;
use crate::tree_model::intern_one;
use crate::tree_model::intern_seq;
use crate::tree_model::lemma_intern_seq_props;

verus! {

broadcast use vstd::seq::group_seq_axioms, vstd::std_specs::vec::group_vec_axioms;

/// The characters of each string, in order.
pub open spec fn strings_view(ts: Seq<String>) -> Seq<Seq<char>> {
    ts.map_values(|t: String| t@)
}

/// Whether some string of `v` holds the characters of `x`.
fn vec_contains_str(v: &Vec<String>, x: &str) -> (r: bool)
    ensures
        r == strings_view(v@).contains(x@),
{
    let mut i: usize = 0;
    while i < v.len()
        invariant
            i <= v.len(),
            forall|k: int| 0 <= k < i ==> strings_view(v@)[k] != x@,
        decreases v.len() - i,
    {
        if matches!(str_cmp(v[i].as_str(), x), core::cmp::Ordering::Equal) {
            proof {
                assert(strings_view(v@)[i as int] == x@);
            }
            return true;
        }
        i = i + 1;
    }
    proof {
        assert forall|k: int| 0 <= k < strings_view(v@).len() implies strings_view(v@)[k] != x@
        by {}
    }
    false
}

/// Split a string at every occurrence of `sep`.
fn split_str(s: &str, sep: char) -> (r: Vec<String>)
    ensures
        strings_view(r@) == split_on(s@, sep),
    decreases s@.len(),
{
    let n = s.unicode_len();
    let mut i: usize = 0;
    while i < n && s.get_char(i) != sep
        invariant
            i <= n,
            n == s@.len(),
            forall|k: int| 0 <= k < i ==> s@[k] != sep,
        decreases n - i,
    {
        i = i + 1;
    }
    proof {
        lemma_find_char(s@, sep);
        assert(find_char(s@, sep) == i as int);
    }
    if i == n {
        let mut r: Vec<String> = Vec::new();
        r.push(String::from_str(s));
        proof {
            assert(strings_view(r@) =~= split_on(s@, sep));
        }
        r
    } else {
        let head = s.substring_char(0, i);
        let tail = s.substring_char(i + 1, n);
        let mut rest = split_str(tail, sep);
        rest.insert(0, String::from_str(head));
        proof {
            assert(split_on(tail@, sep) == split_on(s@.skip(i as int + 1), sep));
            assert(strings_view(rest@) =~= seq![s@.take(i as int)] + split_on(
                s@.skip(i as int + 1),
                sep,
            ));
            assert(strings_view(rest@) =~= split_on(s@, sep));
        }
        rest
    }
}

/// Whether a string holds exactly the one character `c`.
fn is_marker_exec(s: &String, c: char) -> (r: bool)
    ensures
        r == is_marker(s@, c),
{
    s.as_str().unicode_len() == 1 && s.as_str().get_char(0) == c
}

/// One record of the description, as parsed from a line.
enum Row {
    Category { start: String, end: String, tags: Vec<String> },
    Code { name: String, docs: String, tags: Vec<String> },
    End,
}

/// The ghost mirror of a parsed record.
spec fn row_view(r: Row) -> RowV {
    match r {
        Row::Category { start, end, tags } => RowV::Category {
            start: start@,
            end: end@,
            tags: strings_view(tags@),
        },
        Row::Code { name, docs, tags } => RowV::Code {
            name: name@,
            docs: docs@,
            tags: strings_view(tags@),
        },
        Row::End => RowV::End,
    }
}

/// Parse the tags field of a record.
fn parse_tags(f: &str) -> (r: Result<Vec<String>, ParseError>)
    ensures
        r matches Ok(ts) ==> parse_tags_spec(f@) == Some(strings_view(ts@)),
        r is Err <==> parse_tags_spec(f@) is None,
        r matches Err(e) ==> e == ParseError::Syntax,
{
    if f.is_empty() {
        let ts: Vec<String> = Vec::new();
        proof {
            assert(strings_view(ts@) =~= Seq::<Seq<char>>::empty());
        }
        return Ok(ts);
    }
    let ps = split_str(f, ',');
    let mut k: usize = 0;
    while k < ps.len()
        invariant
            k <= ps.len(),
            f@.len() > 0,
            strings_view(ps@) == split_on(f@, ','),
            forall|j: int| 0 <= j < k ==> (#[trigger] strings_view(ps@)[j]).len() > 0,
        decreases ps.len() - k,
    {
        if ps[k].as_str().is_empty() {
            proof {
                assert(strings_view(ps@)[k as int].len() == 0);
                assert(split_on(f@, ',')[k as int].len() == 0);
                assert(exists|w: int|
                    0 <= w < split_on(f@, ',').len() && (#[trigger] split_on(f@, ',')[w]).len()
                        == 0);
                assert(parse_tags_spec(f@) is None);
            }
            return Err(ParseError::Syntax);
        }
        k = k + 1;
    }
    Ok(ps)
}

/// Parse one line of the description.
fn parse_row(line: &str) -> (r: Result<Row, ParseError>)
    ensures
        r matches Ok(row) ==> parse_row_spec(line@) == Some(row_view(row)),
        r is Err <==> parse_row_spec(line@) is None,
        r matches Err(e) ==> e == ParseError::Syntax,
{
    let fs = split_str(line, ';');
    proof {
        assert(fs@.len() == strings_view(fs@).len());
    }
    if fs.len() == 1 && is_marker_exec(&fs[0], 'E') {
        proof {
            assert(strings_view(fs@)[0] == fs@[0]@);
        }
        return Ok(Row::End);
    }
    if fs.len() == 4 {
        proof {
            assert(strings_view(fs@)[0] == fs@[0]@);
            assert(strings_view(fs@)[1] == fs@[1]@);
            assert(strings_view(fs@)[2] == fs@[2]@);
            assert(strings_view(fs@)[3] == fs@[3]@);
        }
        let kind_c = is_marker_exec(&fs[0], 'C');
        let kind_l = is_marker_exec(&fs[0], 'L');
        if kind_c || kind_l {
            match parse_tags(fs[3].as_str()) {
                Err(_) => {
                    return Err(ParseError::Syntax);
                },
                Ok(tags) => {
                    if kind_c {
                        return Ok(
                            Row::Category { start: fs[1].clone(), end: fs[2].clone(), tags },
                        );
                    } else {
                        return Ok(Row::Code { name: fs[1].clone(), docs: fs[2].clone(), tags });
                    }
                },
            }
        }
    }
    Err(ParseError::Syntax)
}

/// A tree node: a category spanning a lexicographic range with its
/// children, or a single code with its description. Group tags on a
/// category cover its whole subtree; tags on a code cover that code.
pub enum TreeNode {
    Category { start: String, end: String, groups: Vec<String>, children: Vec<TreeNode> },
    Code { name: String, docs: String, groups: Vec<String> },
}

/// The ghost mirror of a tree node.
pub open spec fn node_view(n: TreeNode) -> NodeV
    decreases n,
{
    match n {
        TreeNode::Category { start, end, groups, children } => {
            proof {
                assert(decreases_to!(children => children@));
            }
            NodeV::Category {
                start: start@,
                end: end@,
                tags: strings_view(groups@),
                children: forest_view(children@),
            }
        },
        TreeNode::Code { name, docs, groups } => NodeV::Code {
            name: name@,
            docs: docs@,
            tags: strings_view(groups@),
        },
    }
}

/// The ghost mirror of a sequence of tree nodes.
pub open spec fn forest_view(s: Seq<TreeNode>) -> Seq<NodeV>
    decreases s,
{
    if s.len() == 0 {
        Seq::empty()
    } else {
        seq![node_view(s[0])] + forest_view(s.drop_first())
    }
}

/// The mirror of a forest mirrors each node in place.
pub proof fn lemma_forest_view_props(s: Seq<TreeNode>)
    ensures
        forest_view(s).len() == s.len(),
        forall|i: int| 0 <= i < s.len() ==> forest_view(s)[i] == node_view(#[trigger] s[i]),
    decreases s.len(),
{
    if s.len() > 0 {
        lemma_forest_view_props(s.drop_first());
        assert forall|i: int| 0 <= i < s.len() implies forest_view(s)[i] == node_view(
            #[trigger] s[i],
        ) by {
            if i > 0 {
                assert(s[i] == s.drop_first()[i - 1]);
                assert(forest_view(s)[i] == forest_view(s.drop_first())[i - 1]);
            }
        }
    }
}

/// Mirroring a forest grown by one node grows the mirror by the node's.
pub proof fn lemma_forest_view_push(s: Seq<TreeNode>, n: TreeNode)
    ensures
        forest_view(s.push(n)) == forest_view(s).push(node_view(n)),
    decreases s.len(),
{
    if s.len() == 0 {
        assert(s =~= Seq::<TreeNode>::empty());
        assert(s.push(n)[0] == n);
        assert(s.push(n).drop_first() =~= s);
        assert(forest_view(s.push(n)) =~= forest_view(s).push(node_view(n)));
    } else {
        assert(s.push(n)[0] == s[0]);
        assert(s.push(n).drop_first() =~= s.drop_first().push(n));
        lemma_forest_view_push(s.drop_first(), n);
        assert(forest_view(s.push(n)) =~= forest_view(s).push(node_view(n)));
    }
}

/// The end of the span a node covers, for sibling-order checks.
fn node_end_str(n: &TreeNode) -> (r: &String)
    ensures
        r@ == node_end(node_view(*n)),
{
    match n {
        TreeNode::Category { end, .. } => end,
        TreeNode::Code { name, .. } => name,
    }
}

/// A category still open while the description is read.
struct Frame {
    start: String,
    end: String,
    tags: Vec<String>,
    children: Vec<TreeNode>,
}

/// The ghost mirror of an open category.
spec fn frame_view(f: Frame) -> FrameV {
    FrameV {
        start: f.start@,
        end: f.end@,
        tags: strings_view(f.tags@),
        children: forest_view(f.children@),
    }
}

/// The ghost mirror of the whole parser state.
spec fn stv(done: Seq<TreeNode>, stack: Seq<Frame>, names: Seq<String>) -> BuildV {
    BuildV {
        done: forest_view(done),
        stack: stack.map_values(|f: Frame| frame_view(f)),
        names: strings_view(names),
    }
}

/// Whether a node whose span starts at `start` may join the current
/// level without breaking the sibling order.
fn can_append_exec(done: &Vec<TreeNode>, stack: &Vec<Frame>, start: &str) -> (r: bool)
    ensures
        forall|n: NodeV|
            node_start(n) == start@ ==> r == can_append(
                stv(done@, stack@, Seq::<String>::empty()),
                n,
            ),
{
    proof {
        if stack@.len() > 0 {
            assert(stack@.map_values(|f: Frame| frame_view(f)).last() == frame_view(
                stack@.last(),
            ));
        }
    }
    let siblings: &Vec<TreeNode> = if stack.len() == 0 {
        done
    } else {
        &stack[stack.len() - 1].children
    };
    proof {
        lemma_forest_view_props(siblings@);
    }
    if siblings.len() == 0 {
        true
    } else {
        let prev = &siblings[siblings.len() - 1];
        proof {
            assert(forest_view(siblings@).last() == node_view(siblings@.last()));
        }
        str_lt(node_end_str(prev).as_str(), start)
    }
}

/// Append a finished node at the current level.
fn push_node(done: &mut Vec<TreeNode>, stack: &mut Vec<Frame>, node: TreeNode)
    ensures
        forall|ns: Seq<String>|
            stv(final(done)@, final(stack)@, ns) == append_child(
                #[trigger] stv(old(done)@, old(stack)@, ns),
                node_view(node),
            ),
{
    let ghost old_done = done@;
    let ghost old_stack = stack@;
    let ghost nv = node_view(node);
    if stack.len() == 0 {
        done.push(node);
        proof {
            lemma_forest_view_push(old_done, node);
        }
    } else {
        let mut f = match stack.pop() {
            Some(f) => f,
            None => {
                proof {
                    assert(false);
                }
                return ;
            },
        };
        let ghost old_children = f.children@;
        f.children.push(node);
        stack.push(f);
        proof {
            lemma_forest_view_push(old_children, node);
            let fv = frame_view(old_stack.last());
            let fv2 = FrameV {
                start: fv.start,
                end: fv.end,
                tags: fv.tags,
                children: fv.children.push(nv),
            };
            assert(stack@ =~= old_stack.update(old_stack.len() - 1, stack@.last()));
            assert(frame_view(stack@.last()) == fv2);
            assert forall|ns: Seq<String>|
                stv(done@, stack@, ns) == append_child(
                    #[trigger] stv(old_done, old_stack, ns),
                    nv,
                ) by {
                let a = stv(done@, stack@, ns);
                let b = append_child(stv(old_done, old_stack, ns), nv);
                assert(a.done == b.done);
                assert(a.names == b.names);
                assert(a.stack =~= b.stack);
            }
        }
    }
}

/// Apply one record to the parser state, as `build_step` says.
fn apply_row(
    done: &mut Vec<TreeNode>,
    stack: &mut Vec<Frame>,
    names: &mut Vec<String>,
    row: Row,
) -> (r: Result<(), ParseError>)
    ensures
        r is Ok <==> build_step(stv(old(done)@, old(stack)@, old(names)@), row_view(row)) is Ok,
        r is Ok ==> build_step(stv(old(done)@, old(stack)@, old(names)@), row_view(row))
            == Ok::<BuildV, ParseError>(stv(final(done)@, final(stack)@, final(names)@)),
        r matches Err(e) ==> build_step(stv(old(done)@, old(stack)@, old(names)@), row_view(row))
            == Err::<BuildV, ParseError>(e),
{
    let ghost st0 = stv(done@, stack@, names@);
    match row {
        Row::Category { start, end, tags } => {
            if !str_le(start.as_str(), end.as_str()) {
                return Err(ParseError::MalformedRange);
            }
            let ghost old_stack = stack@;
            stack.push(Frame { start, end, tags, children: Vec::new() });
            proof {
                assert(forest_view(stack@.last().children@) =~= Seq::<NodeV>::empty());
                assert(stack@.map_values(|f: Frame| frame_view(f)) =~= old_stack.map_values(
                    |f: Frame| frame_view(f),
                ).push(frame_view(stack@.last())));
                assert(stv(done@, stack@, names@) == build_step(st0, row_view(row))->Ok_0);
            }
            Ok(())
        },
        Row::Code { name, docs, tags } => {
            if vec_contains_str(names, name.as_str()) {
                return Err(ParseError::DuplicateName);
            }
            if !can_append_exec(done, stack, name.as_str()) {
                proof {
                    let n = NodeV::Code {
                        name: name@,
                        docs: docs@,
                        tags: strings_view(tags@),
                    };
                    assert(node_start(n) == name@);
                    assert(top_children(st0) == top_children(
                        stv(done@, stack@, Seq::<String>::empty()),
                    ));
                    assert(can_append(stv(done@, stack@, Seq::<String>::empty()), n)
                        == can_append(st0, n));
                }
                return Err(ParseError::SiblingOrder);
            }
            let name_copy = name.clone();
            let node = TreeNode::Code { name, docs, groups: tags };
            proof {
                assert(node_start(node_view(node)) == name_copy@);
                assert(top_children(st0) == top_children(
                    stv(done@, stack@, Seq::<String>::empty()),
                ));
                assert(can_append(stv(done@, stack@, Seq::<String>::empty()), node_view(node))
                    == can_append(st0, node_view(node)));
            }
            push_node(done, stack, node);
            names.push(name_copy);
            proof {
                assert(strings_view(names@) =~= strings_view(old(names)@).push(name_copy@));
                let st1 = append_child(st0, node_view(node));
                assert(stv(done@, stack@, old(names)@) == st1);
                assert(stv(done@, stack@, names@) == BuildV {
                    done: st1.done,
                    stack: st1.stack,
                    names: strings_view(old(names)@).push(name_copy@),
                });
            }
            Ok(())
        },
        Row::End => {
            let f = match stack.pop() {
                Some(f) => f,
                None => {
                    return Err(ParseError::UnmatchedEnd);
                },
            };
            proof {
                assert(frame_view(old(stack)@.last()) == frame_view(f));
                assert(stack@ =~= old(stack)@.drop_last());
                assert(stack@.map_values(|fr: Frame| frame_view(fr)) =~= old(
                    stack,
                )@.map_values(|fr: Frame| frame_view(fr)).drop_last());
            }
            if f.children.len() == 0 {
                proof {
                    assert(forest_view(f.children@).len() == 0);
                }
                return Err(ParseError::EmptyCategory);
            }
            proof {
                lemma_forest_view_props(f.children@);
            }
            if !can_append_exec(done, stack, f.start.as_str()) {
                proof {
                    let st0p = BuildV { done: st0.done, stack: st0.stack.drop_last(), names: st0.names };
                    assert(top_children(st0p) == top_children(
                        stv(done@, stack@, Seq::<String>::empty()),
                    ));
                    let n = NodeV::Category {
                        start: frame_view(f).start,
                        end: frame_view(f).end,
                        tags: frame_view(f).tags,
                        children: frame_view(f).children,
                    };
                    assert(node_start(n) == f.start@);
                    assert(can_append(stv(done@, stack@, Seq::<String>::empty()), n)
                        == can_append(st0p, n));
                }
                return Err(ParseError::SiblingOrder);
            }
            let node = TreeNode::Category {
                start: f.start,
                end: f.end,
                groups: f.tags,
                children: f.children,
            };
            proof {
                let st0p = BuildV { done: st0.done, stack: st0.stack.drop_last(), names: st0.names };
                assert(node_start(node_view(node)) == frame_view(f).start);
                assert(top_children(st0p) == top_children(
                    stv(done@, stack@, Seq::<String>::empty()),
                ));
                assert(can_append(stv(done@, stack@, Seq::<String>::empty()), node_view(node))
                    == can_append(st0p, node_view(node)));
                assert(stv(done@, stack@, names@) == st0p);
            }
            push_node(done, stack, node);
            proof {
                let st0p = BuildV { done: st0.done, stack: st0.stack.drop_last(), names: st0.names };
                assert(stv(done@, stack@, names@) == append_child(st0p, node_view(node)));
            }
            Ok(())
        },
    }
}

/// Add each of `tags` that is not yet present.
fn add_tags(out: &mut Vec<String>, tags: &Vec<String>)
    requires
        strings_view(old(out)@).no_duplicates(),
    ensures
        strings_view(final(out)@).no_duplicates(),
        forall|g: Seq<char>|
            strings_view(final(out)@).contains(g) <==> strings_view(old(out)@).contains(g)
                || strings_view(tags@).contains(g),
        strings_view(final(out)@).to_set() == strings_view(old(out)@).to_set().union(
            strings_view(tags@).to_set(),
        ),
{
    let ghost tv = strings_view(tags@);
    let mut k: usize = 0;
    while k < tags.len()
        invariant
            k <= tags.len(),
            tv == strings_view(tags@),
            strings_view(out@).no_duplicates(),
            forall|g: Seq<char>|
                strings_view(out@).contains(g) <==> strings_view(old(out)@).contains(g)
                    || tv.take(k as int).contains(g),
        decreases tags.len() - k,
    {
        let ghost pre = strings_view(out@);
        proof {
            assert(tv[k as int] == tags@[k as int]@);
            assert forall|g: Seq<char>| tv.take(k as int + 1).contains(g) implies (tv.take(
                k as int,
            ).contains(g) || g == tv[k as int]) by {
                let w = choose|w: int|
                    0 <= w < tv.take(k as int + 1).len() && #[trigger] tv.take(k as int + 1)[w]
                        == g;
                if w < k {
                    assert(tv.take(k as int)[w] == g);
                }
            }
            assert forall|g: Seq<char>| tv.take(k as int).contains(g) implies tv.take(
                k as int + 1,
            ).contains(g) by {
                let w = choose|w: int|
                    0 <= w < tv.take(k as int).len() && #[trigger] tv.take(k as int)[w] == g;
                assert(tv.take(k as int + 1)[w] == g);
            }
            assert(tv.take(k as int + 1)[k as int] == tv[k as int]);
            assert(tv.take(k as int + 1).contains(tv[k as int]));
        }
        let present = vec_contains_str(out, tags[k].as_str());
        if !present {
            out.push(tags[k].clone());
            proof {
                assert(strings_view(out@) =~= pre.push(tv[k as int]));
                assert forall|a: int, b: int|
                    0 <= a < b < strings_view(out@).len() implies strings_view(out@)[a]
                    != strings_view(out@)[b] by {
                    if b < pre.len() {
                        assert(pre.no_duplicates());
                    } else {
                        assert(strings_view(out@)[b] == tv[k as int]);
                        assert(strings_view(out@)[a] == pre[a]);
                        assert(pre.contains(pre[a]));
                    }
                }
                assert forall|g: Seq<char>| strings_view(out@).contains(g) implies (pre.contains(
                    g,
                ) || g == tv[k as int]) by {
                    let w = choose|w: int|
                        0 <= w < strings_view(out@).len() && #[trigger] strings_view(out@)[w]
                            == g;
                    if w < pre.len() {
                        assert(pre[w] == g);
                    }
                }
                assert forall|g: Seq<char>| pre.contains(g) implies strings_view(out@).contains(
                    g,
                ) by {
                    let w = choose|w: int| 0 <= w < pre.len() && #[trigger] pre[w] == g;
                    assert(strings_view(out@)[w] == g);
                }
                assert(strings_view(out@)[pre.len() as int] == tv[k as int]);
                assert(strings_view(out@).contains(tv[k as int]));
                assert forall|g: Seq<char>|
                    strings_view(out@).contains(g) <==> (strings_view(old(out)@).contains(g)
                        || tv.take(k as int + 1).contains(g)) by {
                    assert(pre.contains(g) <==> strings_view(old(out)@).contains(g) || tv.take(
                        k as int,
                    ).contains(g));
                }
            }
        } else {
            proof {
                assert(pre.contains(tv[k as int]));
                assert forall|g: Seq<char>|
                    strings_view(out@).contains(g) <==> (strings_view(old(out)@).contains(g)
                        || tv.take(k as int + 1).contains(g)) by {
                    assert(pre.contains(g) <==> strings_view(old(out)@).contains(g) || tv.take(
                        k as int,
                    ).contains(g));
                }
            }
        }
        k = k + 1;
    }
    proof {
        assert(tv.take(tags@.len() as int) =~= tv);
        assert forall|g: Seq<char>|
            strings_view(out@).to_set().contains(g) == strings_view(old(out)@).to_set().union(
                tv.to_set(),
            ).contains(g) by {
            assert(strings_view(out@).contains(g) <==> strings_view(old(out)@).contains(g)
                || tv.take(tags@.len() as int).contains(g));
        }
        assert(strings_view(out@).to_set() =~= strings_view(old(out)@).to_set().union(
            tv.to_set(),
        ));
    }
}

/// Gather the distinct tags of a whole forest.
fn collect_tags_forest(nodes: &Vec<TreeNode>, out: &mut Vec<String>)
    requires
        strings_view(old(out)@).no_duplicates(),
    ensures
        strings_view(final(out)@).no_duplicates(),
        forall|g: Seq<char>|
            strings_view(final(out)@).contains(g) <==> strings_view(old(out)@).contains(g)
                || forest_tags(forest_view(nodes@)).contains(g),
        strings_view(final(out)@).to_set() == strings_view(old(out)@).to_set().union(
            forest_tags(forest_view(nodes@)),
        ),
    decreases nodes@,
{
    let ghost ftv = forest_view(nodes@);
    proof {
        lemma_forest_view_props(nodes@);
    }
    let mut i: usize = 0;
    while i < nodes.len()
        invariant
            i <= nodes.len(),
            ftv == forest_view(nodes@),
            ftv.len() == nodes@.len(),
            forall|q: int| 0 <= q < nodes@.len() ==> ftv[q] == node_view(#[trigger] nodes@[q]),
            strings_view(out@).no_duplicates(),
            forall|g: Seq<char>|
                strings_view(out@).contains(g) <==> strings_view(old(out)@).contains(g)
                    || forest_tags(ftv.take(i as int)).contains(g),
        decreases nodes.len() - i,
    {
        proof {
            lemma_forest_tags_push(ftv.take(i as int), ftv[i as int]);
            assert(ftv.take(i as int + 1) =~= ftv.take(i as int).push(ftv[i as int]));
        }
        let ghost pre = strings_view(out@);
        match &nodes[i] {
            TreeNode::Code { groups, .. } => {
                add_tags(out, groups);
                proof {
                    assert(node_tags(ftv[i as int]) =~= strings_view(groups@).to_set());
                    assert forall|g: Seq<char>|
                        strings_view(out@).contains(g) <==> (strings_view(old(out)@).contains(g)
                            || forest_tags(ftv.take(i as int + 1)).contains(g)) by {
                        assert(pre.contains(g) <==> strings_view(old(out)@).contains(g)
                            || forest_tags(ftv.take(i as int)).contains(g));
                        assert(strings_view(out@).to_set() == pre.to_set().union(
                            strings_view(groups@).to_set(),
                        ));
                        assert(strings_view(out@).contains(g)
                            == strings_view(out@).to_set().contains(g));
                        assert(node_tags(ftv[i as int]).contains(g) == strings_view(
                            groups@,
                        ).contains(g));
                    }
                }
            },
            TreeNode::Category { groups, children, .. } => {
                add_tags(out, groups);
                let ghost mid = strings_view(out@);
                proof {
                    assert(decreases_to!(nodes@ => nodes@[i as int]));
                    assert(decreases_to!(nodes@[i as int] => *children));
                    assert(decreases_to!(*children => children@));
                }
                collect_tags_forest(children, out);
                proof {
                    assert(node_tags(ftv[i as int]) =~= strings_view(groups@).to_set().union(
                        forest_tags(forest_view(children@)),
                    ));
                    assert forall|g: Seq<char>|
                        strings_view(out@).contains(g) <==> (strings_view(old(out)@).contains(g)
                            || forest_tags(ftv.take(i as int + 1)).contains(g)) by {
                        assert(pre.contains(g) <==> strings_view(old(out)@).contains(g)
                            || forest_tags(ftv.take(i as int)).contains(g));
                        assert(mid.to_set() == pre.to_set().union(
                            strings_view(groups@).to_set(),
                        ));
                        assert(mid.contains(g) == mid.to_set().contains(g));
                        assert(strings_view(out@).to_set() == mid.to_set().union(
                            forest_tags(forest_view(children@)),
                        ));
                        assert(strings_view(out@).contains(g)
                            == strings_view(out@).to_set().contains(g));
                        assert(node_tags(ftv[i as int]).contains(g) == (strings_view(
                            groups@,
                        ).contains(g) || forest_tags(forest_view(children@)).contains(g)));
                    }
                }
            },
        }
        i = i + 1;
    }
    proof {
        assert(ftv.take(nodes@.len() as int) =~= ftv);
        assert forall|g: Seq<char>|
            strings_view(out@).to_set().contains(g) == strings_view(old(out)@).to_set().union(
                forest_tags(ftv),
            ).contains(g) by {
            assert(strings_view(out@).contains(g) <==> strings_view(old(out)@).contains(g)
                || forest_tags(ftv.take(nodes@.len() as int)).contains(g));
        }
        assert(strings_view(out@).to_set() =~= strings_view(old(out)@).to_set().union(
            forest_tags(ftv),
        ));
    }
}

/// An immutable classification tree over a coding nomenclature, with the
/// distinct group tags found anywhere in it.
pub struct ClinicalCodeTree {
    roots: Vec<TreeNode>,
    groups: Vec<String>,
}

impl ClinicalCodeTree {
    /// The ghost mirror of the forest of root nodes.
    pub closed spec fn forest(self) -> Seq<NodeV> {
        forest_view(self.roots@)
    }

    /// The cached distinct group tags.
    pub closed spec fn groups_seq(self) -> Seq<Seq<char>> {
        strings_view(self.groups@)
    }

    /// Well-formedness: ordered, structurally valid roots, and a tag
    /// cache that lists exactly the tags of the tree, once each.
    pub open spec fn wf(self) -> bool {
        &&& siblings_ordered(self.forest())
        &&& forest_wf(self.forest())
        &&& forest_names(self.forest()).no_duplicates()
        &&& self.groups_seq().no_duplicates()
        &&& forall|g: Seq<char>|
            self.groups_seq().contains(g) <==> forest_tags(self.forest()).contains(g)
    }

    /// Parse a description into a tree, or reject it with the error the
    /// description model assigns to it.
    ///
    /// The description is line-based: `C;start;end;tags` opens a category,
    /// `L;name;docs;tags` is a code, `E` closes the innermost open
    /// category, and `tags` is a comma-separated list that may be empty.
    /// Siblings must already stand in ascending, non-overlapping order.
    pub fn from_reader(input: &str) -> (r: Result<ClinicalCodeTree, ParseError>)
        ensures
            r matches Ok(t) ==> description_outcome(input@) == Ok::<Seq<NodeV>, ParseError>(
                t.forest(),
            ) && t.wf(),
            r matches Err(e) ==> description_outcome(input@) == Err::<Seq<NodeV>, ParseError>(e),
    {
        let mut lines = split_str(input, '\n');
        if lines.len() > 0 && lines[lines.len() - 1].as_str().is_empty() {
            let ghost pre = lines@;
            let _ = lines.pop();
            proof {
                assert(strings_view(lines@) =~= strings_view(pre).drop_last());
            }
        }
        let ghost lv = strings_view(lines@);
        proof {
            assert(lv =~= description_lines(input@));
        }
        let mut i: usize = 0;
        while i < lines.len()
            invariant
                i <= lines.len(),
                lv == strings_view(lines@),
                lv == description_lines(input@),
                forall|k: int| 0 <= k < i ==> parse_row_spec(#[trigger] lv[k]) is Some,
            decreases lines.len() - i,
        {
            match parse_row(lines[i].as_str()) {
                Err(_) => {
                    proof {
                        assert(lv[i as int] == lines@[i as int]@);
                        assert(parse_row_spec(lv[i as int]) is None);
                        lemma_parse_rows_elements(lv);
                        assert(parse_rows_spec(lv) is None);
                    }
                    return Err(ParseError::Syntax);
                },
                Ok(_) => {
                    proof {
                        assert(lv[i as int] == lines@[i as int]@);
                    }
                },
            }
            i = i + 1;
        }
        proof {
            lemma_parse_rows_elements(lv);
        }
        let ghost rowsv = parse_rows_spec(lv)->Some_0;
        let mut done: Vec<TreeNode> = Vec::new();
        let mut stack: Vec<Frame> = Vec::new();
        let mut names: Vec<String> = Vec::new();
        proof {
            assert(forest_view(done@) =~= Seq::<NodeV>::empty());
            assert(stack@.map_values(|f: Frame| frame_view(f)) =~= Seq::<FrameV>::empty());
            assert(strings_view(names@) =~= Seq::<Seq<char>>::empty());
            assert(stv(done@, stack@, names@) == build_init());
            assert(rowsv.take(0) =~= Seq::<RowV>::empty());
            assert(state_names(build_init()) =~= Seq::<Seq<char>>::empty());
            assert(Seq::<Seq<char>>::empty().no_duplicates());
        }
        let mut j: usize = 0;
        while j < lines.len()
            invariant
                j <= lines.len(),
                lv == strings_view(lines@),
                lv == description_lines(input@),
                parse_rows_spec(lv) is Some,
                rowsv == parse_rows_spec(lv)->Some_0,
                rowsv.len() == lines@.len(),
                forall|k: int|
                    0 <= k < lines@.len() ==> rowsv[k] == parse_row_spec(#[trigger] lv[k])->Some_0,
                forall|k: int| 0 <= k < lines@.len() ==> parse_row_spec(#[trigger] lv[k]) is Some,
                build_run(build_init(), rowsv.take(j as int)) == Ok::<BuildV, ParseError>(
                    stv(done@, stack@, names@),
                ),
                build_inv(stv(done@, stack@, names@)),
                stv(done@, stack@, names@).names == state_names(stv(done@, stack@, names@)),
                stv(done@, stack@, names@).names.no_duplicates(),
            decreases lines.len() - j,
        {
            let ghost st_before = stv(done@, stack@, names@);
            proof {
                assert(lv[j as int] == lines@[j as int]@);
            }
            let row = match parse_row(lines[j].as_str()) {
                Ok(row) => row,
                Err(_) => {
                    proof {
                        assert(false);
                    }
                    return Err(ParseError::Syntax);
                },
            };
            let ghost rv = row_view(row);
            proof {
                assert(rv == rowsv[j as int]);
            }
            match apply_row(&mut done, &mut stack, &mut names, row) {
                Err(e) => {
                    proof {
                        lemma_build_run_split(build_init(), rowsv, j as int);
                        assert(rowsv.skip(j as int)[0] == rowsv[j as int]);
                        assert(build_run(st_before, rowsv.skip(j as int))
                            == Err::<BuildV, ParseError>(e));
                        assert(build_run(build_init(), rowsv) == Err::<BuildV, ParseError>(e));
                    }
                    return Err(e);
                },
                Ok(_) => {
                    proof {
                        lemma_build_step_inv(st_before, rv);
                        lemma_build_step_names(st_before, rv);
                        lemma_build_run_split(build_init(), rowsv.take(j as int + 1), j as int);
                        assert(rowsv.take(j as int + 1).take(j as int) =~= rowsv.take(j as int));
                        let tail = rowsv.take(j as int + 1).skip(j as int);
                        assert(tail[0] == rowsv[j as int]);
                        assert(tail.len() == 1);
                        assert(tail.drop_first() =~= Seq::<RowV>::empty());
                        assert(build_run(stv(done@, stack@, names@), tail.drop_first())
                            == Ok::<BuildV, ParseError>(stv(done@, stack@, names@)));
                    }
                },
            }
            j = j + 1;
        }
        proof {
            assert(rowsv.take(lines@.len() as int) =~= rowsv);
        }
        if stack.len() > 0 {
            return Err(ParseError::UnclosedCategory);
        }
        let mut groups: Vec<String> = Vec::new();
        proof {
            assert(strings_view(groups@) =~= Seq::<Seq<char>>::empty());
        }
        collect_tags_forest(&done, &mut groups);
        let tree = ClinicalCodeTree { roots: done, groups };
        proof {
            assert(stack@.map_values(|f: Frame| frame_view(f)).len() == 0);
            let stf = stv(tree.roots@, stack@, names@);
            assert(state_names(stf) =~= forest_names(forest_view(tree.roots@)));
            assert(forest_names(tree.forest()).no_duplicates());
            assert(description_outcome(input@) == Ok::<Seq<NodeV>, ParseError>(tree.forest()));
        }
        Ok(tree)
    }

    /// The distinct group tags found anywhere in the tree, each exactly
    /// once.
    pub fn groups(&self) -> (r: &Vec<String>)
        ensures
            strings_view(r@) == self.groups_seq(),
    {
        &self.groups
    }

    /// Resolve a group: intern every code of the group into the store,
    /// in ascending index order, and hand back their references; an
    /// undefined group is rejected and the store left unchanged.
    pub fn codes_in_group(&self, group: &str, store: &mut ClinicalCodeStore) -> (r: Result<
        Vec<ClinicalCodeRef>,
        CodeError,
    >)
        requires
            old(store).wf(),
            self.wf(),
        ensures
            final(store).wf(),
            r is Ok <==> forest_tags(self.forest()).contains(group@),
            r is Err ==> final(store)@ == old(store)@,
            r matches Err(e) ==> e == CodeError::GroupNotFound,
            r matches Ok(refs) ==> final(store)@ == intern_seq(
                old(store)@,
                forest_group_items(self.forest(), group@, false),
            ).0,
            r matches Ok(refs) ==> refs@.map_values(|cr: ClinicalCodeRef| cr.id_spec())
                == intern_seq(old(store)@, forest_group_items(self.forest(), group@, false)).1,
    {
        if !vec_contains_str(&self.groups, group) {
            return Err(CodeError::GroupNotFound);
        }
        let mut refs: Vec<ClinicalCodeRef> = Vec::new();
        proof {
            assert(refs@.map_values(|cr: ClinicalCodeRef| cr.id_spec()) =~= Seq::<int>::empty());
        }
        collect_forest(&self.roots, group, false, store, &mut refs);
        Ok(refs)
    }

    /// Resolve a group to two parallel columns: the code names and their
    /// descriptions, in ascending index order.
    pub fn group_code_table(&self, group: &str, store: &mut ClinicalCodeStore) -> (r: Result<
        (Vec<String>, Vec<String>),
        CodeError,
    >)
        requires
            old(store).wf(),
            self.wf(),
        ensures
            final(store).wf(),
            r is Ok <==> forest_tags(self.forest()).contains(group@),
            r is Err ==> final(store)@ == old(store)@,
            r matches Err(e) ==> e == CodeError::GroupNotFound,
            r matches Ok(t) ==> strings_view(t.0@) == forest_group_items(
                self.forest(),
                group@,
                false,
            ).map_values(|it: (Seq<char>, Seq<char>)| it.0),
            r matches Ok(t) ==> t.1@.len() == t.0@.len(),
            r matches Ok(t) ==> forall|k: int|
                0 <= k < t.1@.len() ==> (#[trigger] strings_view(t.1@)[k]) == final(store)@[
                    intern_seq(
                        old(store)@,
                        forest_group_items(self.forest(), group@, false),
                    ).1[k]
                ].docs,
    {
        let ghost items = forest_group_items(self.forest(), group@, false);
        let refs = match self.codes_in_group(group, store) {
            Ok(refs) => refs,
            Err(e) => {
                return Err(e);
            },
        };
        proof {
            lemma_intern_seq_props(old(store)@, items);
        }
        let ghost ids = intern_seq(old(store)@, items).1;
        let mut names: Vec<String> = Vec::new();
        let mut docs: Vec<String> = Vec::new();
        let mut i: usize = 0;
        while i < refs.len()
            invariant
                i <= refs.len(),
                refs@.map_values(|cr: ClinicalCodeRef| cr.id_spec()) == ids,
                ids.len() == items.len(),
                store@ == intern_seq(old(store)@, items).0,
                store.wf(),
                forall|k: int| 0 <= k < items.len() ==> 0 <= #[trigger] ids[k] < store@.len(),
                forall|k: int|
                    0 <= k < items.len() ==> store@[#[trigger] ids[k]].name == items[k].0,
                names@.len() == i,
                docs@.len() == i,
                forall|k: int|
                    0 <= k < i ==> strings_view(names@)[k] == items[k].0,
                forall|k: int|
                    0 <= k < i ==> (#[trigger] strings_view(docs@)[k]) == store@[ids[k]].docs,
        decreases refs.len() - i,
        {
            proof {
                assert(refs@.map_values(|cr: ClinicalCodeRef| cr.id_spec())[i as int]
                    == refs@[i as int].id_spec());
            }
            let code = match store.clinical_code_from(&refs[i]) {
                Ok(code) => code,
                Err(_) => {
                    proof {
                        assert(false);
                    }
                    return Err(CodeError::CodeNotFound);
                },
            };
            let ghost pre_names = strings_view(names@);
            let ghost pre_docs = strings_view(docs@);
            names.push(code.name().clone());
            docs.push(code.docs().clone());
            proof {
                assert(strings_view(names@) =~= pre_names.push(code@.name));
                assert(strings_view(docs@) =~= pre_docs.push(code@.docs));
                assert(code@.name == items[i as int].0);
                assert(code@.docs == store@[ids[i as int]].docs);
            }
            i = i + 1;
        }
        proof {
            assert(strings_view(names@) =~= items.map_values(|it: (Seq<char>, Seq<char>)| it.0));
        }
        Ok((names, docs))
    }
}

/// Walk a forest, interning every code that belongs to the group and
/// appending its reference, in depth-first order.
fn collect_forest(
    nodes: &Vec<TreeNode>,
    group: &str,
    inherited: bool,
    store: &mut ClinicalCodeStore,
    out: &mut Vec<ClinicalCodeRef>,
)
    requires
        old(store).wf(),
    ensures
        final(store).wf(),
        final(store)@ == intern_seq(
            old(store)@,
            forest_group_items(forest_view(nodes@), group@, inherited),
        ).0,
        final(out)@.map_values(|cr: ClinicalCodeRef| cr.id_spec()) == old(out)@.map_values(
            |cr: ClinicalCodeRef| cr.id_spec(),
        ) + intern_seq(
            old(store)@,
            forest_group_items(forest_view(nodes@), group@, inherited),
        ).1,
    decreases nodes@,
{
    let ghost ftv = forest_view(nodes@);
    let ghost s0 = store@;
    let ghost ids0 = out@.map_values(|cr: ClinicalCodeRef| cr.id_spec());
    proof {
        lemma_forest_view_props(nodes@);
        assert(forest_group_items(ftv.take(0), group@, inherited) =~= Seq::<(
            Seq<char>,
            Seq<char>,
        )>::empty());
        assert(ftv.take(0) =~= Seq::<NodeV>::empty());
    }
    let mut i: usize = 0;
    while i < nodes.len()
        invariant
            i <= nodes.len(),
            ftv == forest_view(nodes@),
            ftv.len() == nodes@.len(),
            forall|q: int| 0 <= q < nodes@.len() ==> ftv[q] == node_view(#[trigger] nodes@[q]),
            store.wf(),
            store@ == intern_seq(s0, forest_group_items(ftv.take(i as int), group@, inherited)).0,
            out@.map_values(|cr: ClinicalCodeRef| cr.id_spec()) == ids0 + intern_seq(
                s0,
                forest_group_items(ftv.take(i as int), group@, inherited),
            ).1,
        decreases nodes.len() - i,
    {
        let ghost prefix_items = forest_group_items(ftv.take(i as int), group@, inherited);
        let ghost node_items = node_group_items(ftv[i as int], group@, inherited);
        proof {
            lemma_forest_group_items_push(ftv.take(i as int), ftv[i as int], group@, inherited);
            assert(ftv.take(i as int + 1) =~= ftv.take(i as int).push(ftv[i as int]));
            crate::tree_model::lemma_intern_seq_concat(s0, prefix_items, node_items);
        }
        match &nodes[i] {
            TreeNode::Code { name, docs, groups } => {
                let selected = inherited || vec_contains_str(groups, group);
                if selected {
                    let ghost pre_store = store@;
                    let ghost pre_ids = out@.map_values(|cr: ClinicalCodeRef| cr.id_spec());
                    let cref = store.intern(name.as_str(), docs.as_str());
                    out.push(cref);
                    proof {
                        assert(node_items =~= seq![(name@, docs@)]);
                        assert(node_items[0].0 == name@ && node_items[0].1 == docs@);
                        assert(node_items.drop_first() =~= Seq::<(Seq<char>, Seq<char>)>::empty());
                        let io = intern_one(pre_store, name@, docs@);
                        if store_contains_name(pre_store, name@) {
                            assert(store@ == pre_store);
                            assert(0 <= io.1 < pre_store.len() && pre_store[io.1].name == name@);
                            if io.1 != cref.id_spec() {
                                if io.1 < cref.id_spec() {
                                    assert(pre_store[io.1].name != pre_store[cref.id_spec()].name);
                                } else {
                                    assert(pre_store[cref.id_spec()].name != pre_store[io.1].name);
                                }
                            }
                            assert(io.0 == store@ && io.1 == cref.id_spec());
                        } else {
                            assert(store@ =~= pre_store.push(CodeV { name: name@, docs: docs@ }));
                            assert(io.0 == store@ && io.1 == cref.id_spec());
                        }
                        assert(intern_one(pre_store, node_items[0].0, node_items[0].1) == io);
                        assert(intern_seq(io.0, node_items.drop_first()).0 == io.0);
                        assert(intern_seq(io.0, node_items.drop_first()).1 =~= Seq::<int>::empty());
                        assert(intern_seq(pre_store, node_items).0 == io.0);
                        assert(intern_seq(pre_store, node_items).1 =~= seq![io.1]);
                        assert(store@ == intern_seq(
                            s0,
                            forest_group_items(ftv.take(i as int + 1), group@, inherited),
                        ).0);
                        assert(out@.map_values(|cr: ClinicalCodeRef| cr.id_spec()) =~= pre_ids.push(
                            cref.id_spec(),
                        ));
                        assert(out@.map_values(|cr: ClinicalCodeRef| cr.id_spec()) =~= ids0
                            + intern_seq(
                            s0,
                            forest_group_items(ftv.take(i as int + 1), group@, inherited),
                        ).1);
                    }
                } else {
                    proof {
                        assert(node_items =~= Seq::<(Seq<char>, Seq<char>)>::empty());
                        assert(intern_seq(store@, node_items).0 == store@);
                        assert(intern_seq(store@, node_items).1 =~= Seq::<int>::empty());
                        assert(intern_seq(s0, prefix_items).1 + intern_seq(store@, node_items).1
                            =~= intern_seq(s0, prefix_items).1);
                        assert(store@ == intern_seq(
                            s0,
                            forest_group_items(ftv.take(i as int + 1), group@, inherited),
                        ).0);
                        assert(store@ == intern_seq(
                            s0,
                            forest_group_items(ftv.take(i as int + 1), group@, inherited),
                        ).0);
                        assert(out@.map_values(|cr: ClinicalCodeRef| cr.id_spec()) =~= ids0
                            + intern_seq(
                            s0,
                            forest_group_items(ftv.take(i as int + 1), group@, inherited),
                        ).1);
                    }
                }
            },
            TreeNode::Category { groups, children, .. } => {
                let inh2 = inherited || vec_contains_str(groups, group);
                proof {
                    assert(decreases_to!(nodes@ => nodes@[i as int]));
                    assert(decreases_to!(nodes@[i as int] => *children));
                    assert(decreases_to!(*children => children@));
                    assert(node_items == forest_group_items(
                        forest_view(children@),
                        group@,
                        inh2,
                    ));
                }
                collect_forest(children, group, inh2, store, out);
                proof {
                    assert(store@ == intern_seq(
                        s0,
                        forest_group_items(ftv.take(i as int + 1), group@, inherited),
                    ).0);
                    assert(out@.map_values(|cr: ClinicalCodeRef| cr.id_spec()) =~= ids0
                        + intern_seq(
                        s0,
                        forest_group_items(ftv.take(i as int + 1), group@, inherited),
                    ).1);
                }
            },
        }
        i = i + 1;
    }
    proof {
        assert(ftv.take(nodes@.len() as int) =~= ftv);
    }
}

} // verus!
