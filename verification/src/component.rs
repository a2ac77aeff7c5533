//! Components: the tree of the grammar, its stack-based builder, its
//! serializer, and the query interface over stored properties.

use vstd::prelude::*;

use crate::error::AbsError;
use crate::error::VObjectError;
use crate::parser::ParsedLine;
use crate::parser::SpecLine;
use crate::parser::begin_kw;
use crate::parser::begin_kw_vec;
use crate::parser::emit_folded;
use crate::parser::end_kw;
use crate::parser::end_kw_vec;
use crate::parser::fold_physical;
use crate::parser::lemma_render_concat;
use crate::parser::fold_all;
use crate::parser::logical_lines;
use crate::parser::parse_line;
use crate::parser::parse_line_spec;
use crate::parser::render_physical;
use crate::parser::unfold_text;
use crate::parser::views;
use crate::property::AbsProp;
use crate::property::Property;
use crate::property::abs_props;
use crate::property::escape_seq;
use crate::property::escape_vec;
use crate::strutil::eq_seq_ci;
use crate::strutil::eq_str_ci;
use crate::strutil::str_chars;

verus! {

/// A named node of the tree: its properties in global insertion order
/// (duplicate names legal and preserved) and its child components in order.
#[derive(Debug)]
pub struct Component {
    pub name: String,
    pub props: Vec<Property>,
    pub subcomponents: Vec<Component>,
}

/// Mathematical model of a component tree.
pub ghost struct AbsComp {
    pub name: Seq<char>,
    pub props: Seq<AbsProp>,
    pub children: Seq<AbsComp>,
}

/// The models of a sequence of components.
pub open spec fn abs_comps(cs: Seq<Component>) -> Seq<AbsComp>
    decreases cs,
{
    Seq::new(
        cs.len(),
        |i: int|
            if 0 <= i < cs.len() {
                cs[i].abs()
            } else {
                arbitrary()
            },
    )
}

impl Component {
    pub open spec fn abs(&self) -> AbsComp
        decreases *self,
    {
        AbsComp {
            name: self.name@,
            props: self.props@.map_values(|p: Property| p.abs()),
            children: abs_comps(self.subcomponents@),
        }
    }

    /// An empty component with the given name.
    pub fn new(name: String) -> (r: Component)
        ensures
            r.abs().name == name@,
            r.abs().props == Seq::<AbsProp>::empty(),
            r.abs().children == Seq::<AbsComp>::empty(),
    {
        let r = Component { name, props: Vec::new(), subcomponents: Vec::new() };
        proof {
            assert(r.abs().props =~= Seq::<AbsProp>::empty());
            assert(r.abs().children =~= Seq::<AbsComp>::empty());
        }
        r
    }

    /// Appends one property, after all stored ones.
    pub fn add_property(&mut self, prop: Property)
        ensures
            final(self).abs() == (AbsComp {
                props: old(self).abs().props.push(prop.abs()),
                ..old(self).abs()
            }),
    {
        self.props.push(prop);
        proof {
            assert(self.abs().props =~= old(self).abs().props.push(prop.abs()));
            assert(self.abs().children =~= old(self).abs().children);
        }
    }

    /// Appends one child component, after all stored ones.
    pub fn add_subcomponent(&mut self, child: Component)
        ensures
            final(self).abs() == (AbsComp {
                children: old(self).abs().children.push(child.abs()),
                ..old(self).abs()
            }),
    {
        let ghost before = self.abs();
        self.subcomponents.push(child);
        proof {
            assert(self.abs().children =~= before.children.push(child.abs()));
            assert(self.abs().props =~= before.props);
        }
    }
}

/// The model of an optional component.
pub open spec fn opt_abs(r: Option<Component>) -> Option<AbsComp> {
    match r {
        Some(c) => Some(c.abs()),
        None => None,
    }
}

/// The stack machine of the tree builder, one logical line at a time.
///
/// `stack` holds the open components, innermost last; `root` the completed
/// root, after which any further line is an error. `BEGIN` pushes an empty
/// component; `END` must match the innermost open name case-insensitively
/// and pops it into its parent, or completes the root; a property joins the
/// innermost open component; a property or `END` with nothing open, any
/// line after the root, and a line without a colon are errors. Input ending
/// with an open component is an unterminated-component error; input ending
/// with no completed root is a distinct error.
pub open spec fn build_lines(
    lines: Seq<Seq<char>>,
    stack: Seq<AbsComp>,
    root: Option<AbsComp>,
) -> Result<AbsComp, AbsError>
    decreases lines.len(),
{
    if lines.len() == 0 {
        if stack.len() > 0 {
            Err(AbsError::Unterminated(stack.last().name))
        } else {
            match root {
                Some(r) => Ok(r),
                None => Err(AbsError::NoRoot),
            }
        }
    } else {
        let l = lines[0];
        let rest = lines.drop_first();
        if root is Some {
            Err(AbsError::Malformed(l))
        } else {
            match parse_line_spec(l) {
                SpecLine::Begin(tag) => build_lines(
                    rest,
                    stack.push(
                        AbsComp {
                            name: tag,
                            props: Seq::<AbsProp>::empty(),
                            children: Seq::<AbsComp>::empty(),
                        },
                    ),
                    root,
                ),
                SpecLine::End(tag) => {
                    if stack.len() == 0 {
                        Err(AbsError::TagMismatch { expected: Seq::<char>::empty(), found: tag })
                    } else if !eq_seq_ci(stack.last().name, tag) {
                        Err(AbsError::TagMismatch { expected: stack.last().name, found: tag })
                    } else {
                        let done = stack.last();
                        let st = stack.drop_last();
                        if st.len() == 0 {
                            build_lines(rest, st, Some(done))
                        } else {
                            let top = st.last();
                            build_lines(
                                rest,
                                st.update(
                                    st.len() - 1,
                                    AbsComp { children: top.children.push(done), ..top },
                                ),
                                root,
                            )
                        }
                    }
                },
                SpecLine::Prop(p) => {
                    if stack.len() == 0 {
                        Err(AbsError::Malformed(l))
                    } else {
                        let top = stack.last();
                        build_lines(
                            rest,
                            stack.update(
                                stack.len() - 1,
                                AbsComp { props: top.props.push(p), ..top },
                            ),
                            root,
                        )
                    }
                },
                SpecLine::Malformed => Err(AbsError::Malformed(l)),
            }
        }
    }
}

/// What parsing a whole text means: its logical lines run through the stack
/// machine, starting with nothing open and no root.
pub open spec fn parse_spec(text: Seq<char>) -> Result<AbsComp, AbsError> {
    build_lines(logical_lines(text), Seq::<AbsComp>::empty(), None)
}

/// Parses text into its single root component, or the structural error the
/// stack machine assigns to it.
pub fn parse_component(s: &str) -> (r: Result<Component, VObjectError>)
    ensures
        match r {
            Ok(c) => parse_spec(s@) == Ok::<AbsComp, AbsError>(c.abs()),
            Err(e) => parse_spec(s@) == Err::<AbsComp, AbsError>(e.abs()),
        },
{
    let chars = str_chars(s);
    let lines = unfold_text(&chars);
    let ghost slines = logical_lines(s@);
    let mut stack: Vec<Component> = Vec::new();
    let mut root: Option<Component> = None;
    let mut i: usize = 0;
    proof {
        assert(abs_comps(stack@) =~= Seq::<AbsComp>::empty());
        assert(views(lines@).skip(0) =~= slines);
    }
    while i < lines.len()
        invariant
            i <= lines@.len(),
            views(lines@) == slines,
            parse_spec(s@) == build_lines(slines.skip(i as int), abs_comps(stack@), opt_abs(root)),
        decreases lines@.len() - i,
    {
        let ghost rem = slines.skip(i as int);
        proof {
            assert(rem[0] == slines[i as int]);
            assert(slines[i as int] == lines@[i as int]@);
            assert(rem.drop_first() =~= slines.skip(i + 1 as int));
        }
        if root.is_some() {
            let text = crate::strutil::chars_to_string(&lines[i]);
            return Err(VObjectError::ParserError(text));
        }
        let line = parse_line(&lines[i]);
        match line {
            ParsedLine::Begin(tag) => {
                let c = Component::new(tag);
                let ghost st0 = abs_comps(stack@);
                stack.push(c);
                proof {
                    assert(abs_comps(stack@) =~= st0.push(c.abs()));
                }
            },
            ParsedLine::End(tag) => {
                if stack.len() == 0 {
                    let found = tag;
                    let expected = crate::strutil::chars_to_string(&Vec::new());
                    proof {
                        assert(expected@ =~= Seq::<char>::empty());
                    }
                    return Err(VObjectError::TagMismatch { expected, found });
                }
                let matches_top = eq_str_ci(&stack[stack.len() - 1].name, tag.as_str());
                proof {
                    assert(abs_comps(stack@).last() == stack@.last().abs());
                }
                if !matches_top {
                    let expected = stack[stack.len() - 1].name.clone();
                    return Err(VObjectError::TagMismatch { expected, found: tag });
                }
                let ghost full = abs_comps(stack@);
                let done = stack.pop().unwrap();
                let ghost st0 = abs_comps(stack@);
                proof {
                    assert(st0 =~= full.drop_last());
                    assert(done.abs() == full.last());
                }
                if stack.len() == 0 {
                    proof {
                        assert(abs_comps(stack@) =~= Seq::<AbsComp>::empty());
                    }
                    root = Some(done);
                } else {
                    let mut top = stack.pop().unwrap();
                    let ghost top0 = top.abs();
                    proof {
                        assert(top0 == st0.last());
                    }
                    top.subcomponents.push(done);
                    proof {
                        assert(top.abs().children =~= top0.children.push(done.abs()));
                        assert(top.abs().props =~= top0.props);
                        assert(top.abs() == (AbsComp { children: top0.children.push(done.abs()), ..top0 }));
                    }
                    let ghost st1 = abs_comps(stack@);
                    stack.push(top);
                    proof {
                        assert(st1 =~= st0.drop_last());
                        assert(abs_comps(stack@) =~= st0.update(st0.len() - 1, top.abs()));
                    }
                }
            },
            ParsedLine::Prop(p) => {
                if stack.len() == 0 {
                    let text = crate::strutil::chars_to_string(&lines[i]);
                    return Err(VObjectError::ParserError(text));
                }
                let ghost st0 = abs_comps(stack@);
                let mut top = stack.pop().unwrap();
                let ghost top0 = top.abs();
                let ghost pabs = p.abs();
                proof {
                    assert(top0 == st0.last());
                }
                top.props.push(p);
                proof {
                    assert(top.abs().props =~= top0.props.push(pabs));
                    assert(top.abs().children =~= top0.children);
                    assert(top.abs() == (AbsComp { props: top0.props.push(pabs), ..top0 }));
                }
                stack.push(top);
                proof {
                    assert(abs_comps(stack@) =~= st0.update(st0.len() - 1, top.abs()));
                }
            },
            ParsedLine::Malformed => {
                let text = crate::strutil::chars_to_string(&lines[i]);
                return Err(VObjectError::ParserError(text));
            },
        }
        i = i + 1;
    }
    proof {
        assert(slines.skip(slines.len() as int) =~= Seq::<Seq<char>>::empty());
    }
    if stack.len() > 0 {
        let name = stack[stack.len() - 1].name.clone();
        proof {
            assert(abs_comps(stack@).last() == stack@.last().abs());
        }
        return Err(VObjectError::UnterminatedComponent(name));
    }
    match root {
        Some(c) => Ok(c),
        None => Err(VObjectError::NoRootComponent),
    }
}

/// The serialized text of one parameter: `;KEY=VALUE`.
pub open spec fn param_text(p: (Seq<char>, Seq<char>)) -> Seq<char> {
    seq![';'] + p.0 + seq!['='] + p.1
}

/// The serialized text of a parameter list, in stored order.
pub open spec fn params_text(ps: Seq<(Seq<char>, Seq<char>)>) -> Seq<char>
    decreases ps.len(),
{
    if ps.len() == 0 {
        Seq::<char>::empty()
    } else {
        param_text(ps[0]) + params_text(ps.drop_first())
    }
}

/// The logical line of one property: name, parameters, a colon, and the
/// escaped value.
pub open spec fn prop_line(p: AbsProp) -> Seq<char> {
    p.name + params_text(p.params) + seq![':'] + escape_seq(p.value)
}

/// The `BEGIN:` line of a component.
pub open spec fn begin_line(name: Seq<char>) -> Seq<char> {
    begin_kw() + name
}

/// The `END:` line of a component.
pub open spec fn end_line(name: Seq<char>) -> Seq<char> {
    end_kw() + name
}

/// The logical lines of a property list, one line per property, in order.
pub open spec fn prop_lines(ps: Seq<AbsProp>) -> Seq<Seq<char>>
    decreases ps.len(),
{
    if ps.len() == 0 {
        Seq::<Seq<char>>::empty()
    } else {
        seq![prop_line(ps[0])] + prop_lines(ps.drop_first())
    }
}

/// The logical lines of a component: `BEGIN`, its properties in stored
/// order, its children depth-first, `END`.
pub open spec fn write_lines(c: AbsComp) -> Seq<Seq<char>>
    decreases c,
{
    seq![begin_line(c.name)] + prop_lines(c.props) + children_lines(c.children) + seq![end_line(
        c.name,
    )]
}

/// The logical lines of a sequence of components, in order.
pub open spec fn children_lines(cs: Seq<AbsComp>) -> Seq<Seq<char>>
    decreases cs,
{
    if cs.len() == 0 {
        Seq::<Seq<char>>::empty()
    } else {
        write_lines(cs[0]) + children_lines(cs.drop_first())
    }
}

/// What serializing a component means: its logical lines, folded to width
/// and rendered with CRLF terminators.
pub open spec fn write_spec(c: AbsComp) -> Seq<char> {
    render_physical(fold_all(write_lines(c)))
}

/// Folding distributes over concatenation of logical-line sequences.
pub proof fn lemma_fold_all_concat(a: Seq<Seq<char>>, b: Seq<Seq<char>>)
    ensures
        fold_all(a + b) == fold_all(a) + fold_all(b),
    decreases a.len(),
{
    if a.len() == 0 {
        assert(a + b =~= b);
        assert(fold_all(a) + fold_all(b) =~= fold_all(b));
    } else {
        lemma_fold_all_concat(a.drop_first(), b);
        assert((a + b).drop_first() =~= a.drop_first() + b);
        assert((a + b)[0] == a[0]);
        assert(fold_physical(a[0]) + (fold_all(a.drop_first()) + fold_all(b)) =~= (fold_physical(
            a[0],
        ) + fold_all(a.drop_first())) + fold_all(b));
    }
}

/// The rendering of the folded form of one more logical line.
pub proof fn lemma_render_fold_push(a: Seq<Seq<char>>, l: Seq<char>)
    ensures
        render_physical(fold_all(a.push(l))) == render_physical(fold_all(a)) + render_physical(
            fold_physical(l),
        ),
{
    assert(a.push(l) =~= a + seq![l]);
    lemma_fold_all_concat(a, seq![l]);
    assert(seq![l].drop_first() =~= Seq::<Seq<char>>::empty());
    assert(fold_all(seq![l]) == fold_physical(l) + fold_all(Seq::<Seq<char>>::empty()));
    assert(fold_physical(l) + Seq::<Seq<char>>::empty() =~= fold_physical(l));
    lemma_render_concat(fold_all(a), fold_physical(l));
}

/// Serialized parameter text distributes over concatenation.
pub proof fn lemma_params_text_concat(a: Seq<(Seq<char>, Seq<char>)>, b: Seq<(Seq<char>, Seq<char>)>)
    ensures
        params_text(a + b) == params_text(a) + params_text(b),
    decreases a.len(),
{
    if a.len() == 0 {
        assert(a + b =~= b);
        assert(params_text(a) + params_text(b) =~= params_text(b));
    } else {
        lemma_params_text_concat(a.drop_first(), b);
        assert((a + b).drop_first() =~= a.drop_first() + b);
        assert((a + b)[0] == a[0]);
        assert(param_text(a[0]) + (params_text(a.drop_first()) + params_text(b)) =~= (param_text(
            a[0],
        ) + params_text(a.drop_first())) + params_text(b));
    }
}

/// Appends the characters of a string slice.
fn push_str_chars(out: &mut Vec<char>, s: &str)
    ensures
        final(out)@ == old(out)@ + s@,
{
    let mut t = str_chars(s);
    out.append(&mut t);
}

/// The logical line of one property, as characters.
fn prop_line_vec(p: &Property) -> (r: Vec<char>)
    ensures
        r@ == prop_line(p.abs()),
{
    let mut r = str_chars(&p.name);
    let ghost pp = p.abs().params;
    let mut j: usize = 0;
    proof {
        assert(params_text(pp.take(0)) =~= Seq::<char>::empty());
        assert(r@ =~= p.abs().name + params_text(pp.take(0)));
    }
    while j < p.params.len()
        invariant
            j <= p.params@.len(),
            pp == p.abs().params,
            r@ == p.abs().name + params_text(pp.take(j as int)),
        decreases p.params@.len() - j,
    {
        let ghost r0 = r@;
        r.push(';');
        push_str_chars(&mut r, p.params[j].key.as_str());
        r.push('=');
        push_str_chars(&mut r, p.params[j].value.as_str());
        proof {
            assert(pp[j as int] == p.params@[j as int].abs());
            assert(r@ =~= r0 + param_text(pp[j as int]));
            lemma_params_text_concat(pp.take(j as int), seq![pp[j as int]]);
            assert(pp.take(j as int) + seq![pp[j as int]] =~= pp.take(j + 1 as int));
            assert(seq![pp[j as int]].drop_first() =~= Seq::<(Seq<char>, Seq<char>)>::empty());
            assert(params_text(Seq::<(Seq<char>, Seq<char>)>::empty()) == Seq::<char>::empty());
            assert(params_text(seq![pp[j as int]]) =~= param_text(pp[j as int]));
            assert(r@ =~= p.abs().name + params_text(pp.take(j + 1 as int)));
        }
        j = j + 1;
    }
    proof {
        assert(pp.take(pp.len() as int) =~= pp);
    }
    r.push(':');
    let value_chars = str_chars(&p.raw_value);
    let mut escaped = escape_vec(&value_chars);
    r.append(&mut escaped);
    proof {
        assert(r@ =~= prop_line(p.abs()));
    }
    r
}

/// Serializes a component into `out`: `BEGIN`, properties, children
/// depth-first, `END`, each line folded and CRLF-terminated.
fn write_into(c: &Component, out: &mut Vec<char>)
    ensures
        final(out)@ == old(out)@ + render_physical(fold_all(write_lines(c.abs()))),
    decreases *c,
{
    let ghost target = write_lines(c.abs());
    let mut begin = begin_kw_vec();
    push_str_chars(&mut begin, c.name.as_str());
    proof {
        assert(begin@ =~= begin_line(c.abs().name));
    }
    emit_folded(&begin, out);
    let ghost emitted = seq![begin_line(c.abs().name)];
    proof {
        assert(emitted =~= Seq::<Seq<char>>::empty().push(begin_line(c.abs().name)));
        lemma_render_fold_push(Seq::<Seq<char>>::empty(), begin_line(c.abs().name));
        assert(render_physical(fold_all(Seq::<Seq<char>>::empty())) =~= Seq::<char>::empty());
        assert(out@ =~= old(out)@ + render_physical(fold_all(emitted)));
    }
    let ghost pp = c.abs().props;
    let mut i: usize = 0;
    proof {
        assert(prop_lines(pp.take(0)) =~= Seq::<Seq<char>>::empty());
        assert(emitted + prop_lines(pp.take(0)) =~= emitted);
    }
    while i < c.props.len()
        invariant
            i <= c.props@.len(),
            pp == c.abs().props,
            out@ == old(out)@ + render_physical(fold_all(emitted + prop_lines(pp.take(i as int)))),
        decreases c.props@.len() - i,
    {
        let lv = prop_line_vec(&c.props[i]);
        emit_folded(&lv, out);
        proof {
            assert(pp[i as int] == c.props@[i as int].abs());
            lemma_render_fold_push(emitted + prop_lines(pp.take(i as int)), prop_line(pp[i as int]));
            assert((emitted + prop_lines(pp.take(i as int))).push(prop_line(pp[i as int])) =~= emitted
                + (prop_lines(pp.take(i as int)) + seq![prop_line(pp[i as int])]));
            lemma_prop_lines_push(pp.take(i as int), pp[i as int]);
            assert(pp.take(i as int).push(pp[i as int]) =~= pp.take(i + 1 as int));
            assert(out@ =~= old(out)@ + render_physical(
                fold_all(emitted + prop_lines(pp.take(i + 1 as int))),
            ));
        }
        i = i + 1;
    }
    let ghost emitted2 = emitted + prop_lines(pp);
    proof {
        assert(pp.take(pp.len() as int) =~= pp);
    }
    let ghost cc = c.abs().children;
    let mut k: usize = 0;
    proof {
        assert(children_lines(cc.take(0)) =~= Seq::<Seq<char>>::empty());
        assert(emitted2 + children_lines(cc.take(0)) =~= emitted2);
    }
    while k < c.subcomponents.len()
        invariant
            k <= c.subcomponents@.len(),
            cc == c.abs().children,
            out@ == old(out)@ + render_physical(
                fold_all(emitted2 + children_lines(cc.take(k as int))),
            ),
            emitted2 == seq![begin_line(c.abs().name)] + prop_lines(c.abs().props),
        decreases c.subcomponents@.len() - k,
    {
        let ghost out_mid = out@;
        write_into(&c.subcomponents[k], out);
        proof {
            assert(cc[k as int] == c.subcomponents@[k as int].abs());
            lemma_fold_all_concat(emitted2 + children_lines(cc.take(k as int)), write_lines(cc[k as int]));
            lemma_render_concat(
                fold_all(emitted2 + children_lines(cc.take(k as int))),
                fold_all(write_lines(cc[k as int])),
            );
            assert(out@ =~= old(out)@ + render_physical(
                fold_all((emitted2 + children_lines(cc.take(k as int))) + write_lines(cc[k as int])),
            ));
            lemma_children_lines_push(cc.take(k as int), cc[k as int]);
            assert(cc.take(k as int).push(cc[k as int]) =~= cc.take(k + 1 as int));
            assert((emitted2 + children_lines(cc.take(k as int))) + write_lines(cc[k as int]) =~= emitted2
                + children_lines(cc.take(k + 1 as int)));
        }
        k = k + 1;
    }
    proof {
        assert(cc.take(cc.len() as int) =~= cc);
    }
    let mut endv = end_kw_vec();
    push_str_chars(&mut endv, c.name.as_str());
    proof {
        assert(endv@ =~= end_line(c.abs().name));
    }
    emit_folded(&endv, out);
    proof {
        lemma_render_fold_push(emitted2 + children_lines(cc), end_line(c.abs().name));
        assert((emitted2 + children_lines(cc)).push(end_line(c.abs().name)) =~= write_lines(
            c.abs(),
        ));
        assert(out@ =~= old(out)@ + render_physical(fold_all(write_lines(c.abs()))));
    }
}

/// Property lines of one more property.
pub proof fn lemma_prop_lines_push(ps: Seq<AbsProp>, p: AbsProp)
    ensures
        prop_lines(ps.push(p)) == prop_lines(ps) + seq![prop_line(p)],
{
    assert(ps.push(p) =~= ps + seq![p]);
    lemma_prop_lines_concat(ps, seq![p]);
    assert(seq![p].drop_first() =~= Seq::<AbsProp>::empty());
    assert(prop_lines(Seq::<AbsProp>::empty()) == Seq::<Seq<char>>::empty());
    assert(prop_lines(seq![p]) =~= seq![prop_line(p)]);
}

/// Property lines distribute over concatenation.
pub proof fn lemma_prop_lines_concat(a: Seq<AbsProp>, b: Seq<AbsProp>)
    ensures
        prop_lines(a + b) == prop_lines(a) + prop_lines(b),
    decreases a.len(),
{
    if a.len() == 0 {
        assert(a + b =~= b);
        assert(prop_lines(a) + prop_lines(b) =~= prop_lines(b));
    } else {
        lemma_prop_lines_concat(a.drop_first(), b);
        assert((a + b).drop_first() =~= a.drop_first() + b);
        assert((a + b)[0] == a[0]);
        assert(seq![prop_line(a[0])] + (prop_lines(a.drop_first()) + prop_lines(b))
            =~= (seq![prop_line(a[0])] + prop_lines(a.drop_first())) + prop_lines(b));
    }
}

/// Children lines of one more child.
pub proof fn lemma_children_lines_push(cs: Seq<AbsComp>, c: AbsComp)
    ensures
        children_lines(cs.push(c)) == children_lines(cs) + write_lines(c),
{
    assert(cs.push(c) =~= cs + seq![c]);
    lemma_children_lines_concat(cs, seq![c]);
    assert(seq![c].drop_first() =~= Seq::<AbsComp>::empty());
    assert(children_lines(seq![c]) == write_lines(c) + children_lines(Seq::<AbsComp>::empty()));
    assert(write_lines(c) + Seq::<Seq<char>>::empty() =~= write_lines(c));
}

/// Children lines distribute over concatenation.
pub proof fn lemma_children_lines_concat(a: Seq<AbsComp>, b: Seq<AbsComp>)
    ensures
        children_lines(a + b) == children_lines(a) + children_lines(b),
    decreases a.len(),
{
    if a.len() == 0 {
        assert(a + b =~= b);
        assert(children_lines(a) + children_lines(b) =~= children_lines(b));
    } else {
        lemma_children_lines_concat(a.drop_first(), b);
        assert((a + b).drop_first() =~= a.drop_first() + b);
        assert((a + b)[0] == a[0]);
        assert(write_lines(a[0]) + (children_lines(a.drop_first()) + children_lines(b))
            =~= (write_lines(a[0]) + children_lines(a.drop_first())) + children_lines(b));
    }
}

/// Serializes a component tree: `BEGIN:<name>`, every property in stored
/// order with its parameters and escaped value, each child in turn, and
/// `END:<name>`, all lines folded at the fixed width with CRLF terminators.
pub fn write_component(c: &Component) -> (r: String)
    ensures
        r@ == write_spec(c.abs()),
{
    let mut out: Vec<char> = Vec::new();
    write_into(c, &mut out);
    proof {
        assert(Seq::<char>::empty() + render_physical(fold_all(write_lines(c.abs()))) =~= out@);
    }
    crate::strutil::chars_to_string(&out)
}

/// The properties of `ps` whose name equals `name` up to ASCII case, in
/// stored order.
pub open spec fn props_named(ps: Seq<AbsProp>, name: Seq<char>) -> Seq<AbsProp>
    decreases ps.len(),
{
    if ps.len() == 0 {
        Seq::<AbsProp>::empty()
    } else if eq_seq_ci(ps[0].name, name) {
        seq![ps[0]] + props_named(ps.drop_first(), name)
    } else {
        props_named(ps.drop_first(), name)
    }
}

/// The query interface preserves insertion order: appending a property
/// appends it to the result of a lookup its name matches, and leaves every
/// other lookup unchanged. In particular properties with a repeated name
/// come back from `get_all` in insertion order, and `get_only` returns the
/// first stored one.
pub proof fn lemma_props_named_push(ps: Seq<AbsProp>, p: AbsProp, name: Seq<char>)
    ensures
        props_named(ps.push(p), name) == (if eq_seq_ci(p.name, name) {
            props_named(ps, name).push(p)
        } else {
            props_named(ps, name)
        }),
    decreases ps.len(),
{
    if ps.len() == 0 {
        assert(ps.push(p)[0] == p);
        assert(ps.push(p).drop_first() =~= Seq::<AbsProp>::empty());
        assert(props_named(Seq::<AbsProp>::empty(), name) == Seq::<AbsProp>::empty());
        assert(props_named(ps, name) == Seq::<AbsProp>::empty());
        if eq_seq_ci(p.name, name) {
            assert(seq![p] + Seq::<AbsProp>::empty() =~= props_named(ps, name).push(p));
        }
    } else {
        assert(ps.push(p)[0] == ps[0]);
        assert(ps.push(p).drop_first() =~= ps.drop_first().push(p));
        lemma_props_named_push(ps.drop_first(), p, name);
        if eq_seq_ci(ps[0].name, name) {
            assert(seq![ps[0]] + props_named(ps.drop_first(), name).push(p) =~= (seq![ps[0]]
                + props_named(ps.drop_first(), name)).push(p));
        }
    }
}

impl Component {
    /// The first stored property with the given name (matched
    /// case-insensitively), or nothing when the name is absent. Duplicates
    /// are legal; the first stored one wins.
    pub fn get_only(&self, name: &str) -> (r: Option<&Property>)
        ensures
            match r {
                Some(p) => props_named(self.abs().props, name@).len() > 0 && p.abs() == props_named(
                    self.abs().props,
                    name@,
                )[0],
                None => props_named(self.abs().props, name@).len() == 0,
            },
    {
        let ghost pp = self.abs().props;
        let mut i: usize = 0;
        proof {
            assert(pp.skip(0) =~= pp);
        }
        while i < self.props.len()
            invariant
                i <= self.props@.len(),
                pp == self.abs().props,
                props_named(pp, name@) == props_named(pp.skip(i as int), name@),
            decreases self.props@.len() - i,
        {
            let ghost rem = pp.skip(i as int);
            proof {
                assert(rem[0] == pp[i as int]);
                assert(pp[i as int] == self.props@[i as int].abs());
                assert(rem.drop_first() =~= pp.skip(i + 1 as int));
            }
            if eq_str_ci(self.props[i].name.as_str(), name) {
                proof {
                    assert(props_named(rem, name@)[0] == rem[0]);
                }
                return Some(&self.props[i]);
            }
            i = i + 1;
        }
        proof {
            assert(pp.skip(pp.len() as int) =~= Seq::<AbsProp>::empty());
        }
        None
    }

    /// All stored properties with the given name (matched
    /// case-insensitively), in stored order; empty when the name is absent.
    pub fn get_all(&self, name: &str) -> (r: Vec<Property>)
        ensures
            abs_props(r@) == props_named(self.abs().props, name@),
    {
        let ghost pp = self.abs().props;
        let mut r: Vec<Property> = Vec::new();
        let mut i: usize = 0;
        proof {
            assert(pp.skip(0) =~= pp);
            assert(abs_props(r@) + props_named(pp, name@) =~= props_named(pp, name@));
        }
        while i < self.props.len()
            invariant
                i <= self.props@.len(),
                pp == self.abs().props,
                abs_props(r@) + props_named(pp.skip(i as int), name@) == props_named(pp, name@),
            decreases self.props@.len() - i,
        {
            let ghost rem = pp.skip(i as int);
            proof {
                assert(rem[0] == pp[i as int]);
                assert(pp[i as int] == self.props@[i as int].abs());
                assert(rem.drop_first() =~= pp.skip(i + 1 as int));
            }
            if eq_str_ci(self.props[i].name.as_str(), name) {
                let p = self.props[i].clone();
                r.push(p);
                proof {
                    assert(abs_props(r@) =~= abs_props(r@.drop_last()).push(pp[i as int]));
                    assert(abs_props(r@) + props_named(pp.skip(i + 1 as int), name@) =~= props_named(
                        pp,
                        name@,
                    ));
                }
            }
            i = i + 1;
        }
        proof {
            assert(pp.skip(pp.len() as int) =~= Seq::<AbsProp>::empty());
            assert(abs_props(r@) =~= props_named(pp, name@));
        }
        r
    }
}

} // verus!
