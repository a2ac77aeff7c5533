//! The round trip of the core: parsing the serialization of a well-formed
//! component tree yields exactly that tree.

use vstd::prelude::*;

use crate::component::AbsComp;
use crate::component::begin_line;
use crate::component::build_lines;
use crate::component::children_lines;
use crate::component::parse_spec;
use crate::component::prop_lines;
use crate::component::write_lines;
use crate::component::write_spec;
use crate::component::end_line;
use crate::component::param_text;
use crate::component::params_text;
use crate::component::prop_line;
use crate::error::AbsError;
use crate::parser::SpecLine;
use crate::parser::begin_kw;
use crate::parser::end_kw;
use crate::parser::esc_parity;
use crate::parser::esc_scan;
use crate::parser::fold_physical;
use crate::parser::lemma_esc_scan_concat;
use crate::parser::lemma_esc_scan_parity;
use crate::parser::lemma_esc_scan_single;
use crate::parser::lemma_fold_no_split_escape;
use crate::parser::find_colon;
use crate::parser::find_colon_rec;
use crate::parser::lemma_find_char_absent;
use crate::parser::lemma_find_char_at;
use crate::parser::param_of_token;
use crate::parser::params_of_tokens;
use crate::parser::lemma_logical_lines_render;
use crate::parser::parse_line_spec;
use crate::parser::split_on;
use crate::parser::starts_ci;
use crate::parser::wf_logical_line;
use crate::property::AbsProp;
use crate::property::escape_char;
use crate::property::escape_seq;
use crate::property::lemma_unescape_escape;
use crate::strutil::eq_char_ci;
use crate::strutil::eq_seq_ci;

verus! {

/// A character that cannot disturb the structure of a property line's left
/// segment: not the value separator, not the parameter separator, not the
/// escape marker, not a line break.
pub open spec fn plain_char(c: char) -> bool {
    c != ':' && c != ';' && c != '\\' && c != '\n'
}

pub open spec fn plain_seq(s: Seq<char>) -> bool {
    forall|i: int| 0 <= i < s.len() ==> plain_char(#[trigger] s[i])
}

/// A parameter that serializes unambiguously: key and value hold only plain
/// characters, and the key holds no `=`.
pub open spec fn wf_param(p: (Seq<char>, Seq<char>)) -> bool {
    plain_seq(p.0) && plain_seq(p.1) && (forall|i: int| 0 <= i < p.0.len() ==> p.0[i] != '=')
}

/// Parameter keys are pairwise distinct within one property.
pub open spec fn distinct_keys(ps: Seq<(Seq<char>, Seq<char>)>) -> bool {
    forall|i: int, j: int| 0 <= i < j < ps.len() ==> (#[trigger] ps[i]).0 != (#[trigger] ps[j]).0
}

/// A property that serializes to a line the line parser maps back to it:
/// the name holds only plain characters, does not begin with fold
/// whitespace, and is not a control keyword; the parameters are well-formed
/// with distinct keys. The value is arbitrary but for carriage returns,
/// which the line layer cannot carry.
pub open spec fn wf_prop(p: AbsProp) -> bool {
    &&& plain_seq(p.name)
    &&& (p.name.len() > 0 ==> p.name[0] != ' ' && p.name[0] != '\t')
    &&& !eq_seq_ci(p.name, seq!['B', 'E', 'G', 'I', 'N'])
    &&& !eq_seq_ci(p.name, seq!['E', 'N', 'D'])
    &&& (forall|i: int| 0 <= i < p.params.len() ==> wf_param(#[trigger] p.params[i]))
    &&& distinct_keys(p.params)
}

/// A tree whose serialization parses back to it: component names free of
/// line breaks, every property well-formed, recursively.
pub open spec fn wf_comp(c: AbsComp) -> bool
    decreases c,
{
    &&& (forall|i: int| 0 <= i < c.name.len() ==> c.name[i] != '\n')
    &&& (forall|i: int| 0 <= i < c.props.len() ==> wf_prop(#[trigger] c.props[i]))
    &&& (forall|i: int| 0 <= i < c.children.len() ==> wf_comp(#[trigger] c.children[i]))
}

/// A colon is equal only to itself up to case.
proof fn lemma_ci_colon(a: char)
    ensures
        eq_char_ci(a, ':') ==> a == ':',
{
}

/// `BEGIN:<name>` parses to a `BEGIN` token carrying the name verbatim.
pub proof fn lemma_parse_begin(name: Seq<char>)
    ensures
        parse_line_spec(begin_line(name)) == SpecLine::Begin(name),
{
    let l = begin_line(name);
    let p = begin_kw();
    assert(l.take(p.len() as int) =~= p);
    assert forall|i: int| 0 <= i < p.len() implies eq_char_ci(l.take(p.len() as int)[i], p[i]) by {
    }
    assert(starts_ci(l, p));
    assert(l.skip(p.len() as int) =~= name);
}

/// `END:<name>` parses to an `END` token carrying the name verbatim.
pub proof fn lemma_parse_end(name: Seq<char>)
    ensures
        parse_line_spec(end_line(name)) == SpecLine::End(name),
{
    let l = end_line(name);
    let b = begin_kw();
    assert(l[0] == 'E' && b[0] == 'B');
    assert(!eq_char_ci(l[0], b[0]));
    if l.len() >= b.len() {
        assert(l.take(b.len() as int)[0] == l[0]);
        assert(!eq_seq_ci(l.take(b.len() as int), b));
    }
    assert(!starts_ci(l, b));
    let p = end_kw();
    assert(l.take(p.len() as int) =~= p);
    assert forall|i: int| 0 <= i < p.len() implies eq_char_ci(l.take(p.len() as int)[i], p[i]) by {
    }
    assert(starts_ci(l, p));
    assert(l.skip(p.len() as int) =~= name);
}

/// Every character of serialized parameter text is either `;`, `=`, or a
/// plain character; in particular none is `:`, `\`, or a line break.
pub proof fn lemma_params_text_plain(ps: Seq<(Seq<char>, Seq<char>)>)
    requires
        forall|i: int| 0 <= i < ps.len() ==> wf_param(#[trigger] ps[i]),
    ensures
        forall|i: int|
            0 <= i < params_text(ps).len() ==> params_text(ps)[i] != ':' && params_text(ps)[i]
                != '\\' && params_text(ps)[i] != '\n',
    decreases ps.len(),
{
    if ps.len() == 0 {
    } else {
        assert(wf_param(ps[0]));
        assert forall|i: int| 0 <= i < ps.drop_first().len() implies wf_param(
            #[trigger] ps.drop_first()[i],
        ) by {
            assert(ps.drop_first()[i] == ps[i + 1]);
        }
        lemma_params_text_plain(ps.drop_first());
        let head = param_text(ps[0]);
        assert forall|i: int| 0 <= i < head.len() implies head[i] != ':' && head[i] != '\\'
            && head[i] != '\n' by {
            if 1 <= i < 1 + ps[0].0.len() {
                assert(head[i] == ps[0].0[i - 1]);
            } else if i >= 2 + ps[0].0.len() {
                assert(head[i] == ps[0].1[i - 2 - ps[0].0.len()]);
            }
        }
        assert forall|i: int| 0 <= i < params_text(ps).len() implies params_text(ps)[i] != ':'
            && params_text(ps)[i] != '\\' && params_text(ps)[i] != '\n' by {
            if i < head.len() {
                assert(params_text(ps)[i] == head[i]);
            } else {
                assert(params_text(ps)[i] == params_text(ps.drop_first())[i - head.len()]);
            }
        }
    }
}

/// No character of escaped text is a line break.
pub proof fn lemma_escape_no_newline(v: Seq<char>)
    ensures
        forall|i: int| 0 <= i < escape_seq(v).len() ==> escape_seq(v)[i] != '\n',
    decreases v.len(),
{
    if v.len() == 0 {
    } else {
        lemma_escape_no_newline(v.skip(1));
        let head = escape_char(v[0]);
        assert forall|i: int| 0 <= i < escape_seq(v).len() implies escape_seq(v)[i] != '\n' by {
            if i < head.len() {
                assert(escape_seq(v)[i] == head[i]);
            } else {
                assert(escape_seq(v)[i] == escape_seq(v.skip(1))[i - head.len()]);
            }
        }
    }
}

/// Scanning text made of colon-free, escape-free characters followed by a
/// colon finds exactly that colon.
proof fn lemma_find_colon_plain(s: Seq<char>, t: Seq<char>)
    requires
        forall|i: int| 0 <= i < s.len() ==> (#[trigger] s[i]) != ':' && s[i] != '\\',
    ensures
        find_colon_rec(s + seq![':'] + t, false) == s.len(),
    decreases s.len(),
{
    let whole = s + seq![':'] + t;
    if s.len() == 0 {
        assert(whole[0] == ':');
    } else {
        assert(whole[0] == s[0]);
        assert(whole[0] != ':' && whole[0] != '\\');
        assert forall|i: int| 0 <= i < s.skip(1).len() implies (#[trigger] s.skip(1)[i]) != ':'
            && s.skip(1)[i] != '\\' by {
            assert(s.skip(1)[i] == s[i + 1]);
        }
        lemma_find_colon_plain(s.skip(1), t);
        assert(whole.skip(1) =~= s.skip(1) + seq![':'] + t);
    }
}

/// The token of one serialized parameter, without its leading `;`.
pub open spec fn param_token(p: (Seq<char>, Seq<char>)) -> Seq<char> {
    p.0 + seq!['='] + p.1
}

/// The tokens of a serialized parameter list.
pub open spec fn param_tokens(ps: Seq<(Seq<char>, Seq<char>)>) -> Seq<Seq<char>>
    decreases ps.len(),
{
    if ps.len() == 0 {
        Seq::<Seq<char>>::empty()
    } else {
        seq![param_token(ps[0])] + param_tokens(ps.drop_first())
    }
}

/// Splitting a semicolon-free token followed by serialized parameters at
/// `;` yields the token and then one token per parameter.
proof fn lemma_split_params(tok: Seq<char>, ps: Seq<(Seq<char>, Seq<char>)>)
    requires
        forall|i: int| 0 <= i < tok.len() ==> (#[trigger] tok[i]) != ';',
        forall|i: int| 0 <= i < ps.len() ==> wf_param(#[trigger] ps[i]),
    ensures
        split_on(tok + params_text(ps), ';') == seq![tok] + param_tokens(ps),
    decreases ps.len(),
{
    let s = tok + params_text(ps);
    if ps.len() == 0 {
        assert(s =~= tok);
        lemma_find_char_absent(s, ';');
        assert(split_on(s, ';') =~= seq![tok] + param_tokens(ps));
    } else {
        let head = param_token(ps[0]);
        assert(wf_param(ps[0]));
        assert forall|i: int| 0 <= i < head.len() implies (#[trigger] head[i]) != ';' by {
            if i < ps[0].0.len() {
                assert(head[i] == ps[0].0[i]);
            } else if i >= 1 + ps[0].0.len() {
                assert(head[i] == ps[0].1[i - 1 - ps[0].0.len()]);
            }
        }
        assert(params_text(ps) == param_text(ps[0]) + params_text(ps.drop_first()));
        assert(param_text(ps[0]) =~= seq![';'] + head);
        assert(s =~= tok + seq![';'] + (head + params_text(ps.drop_first())));
        assert(s[tok.len() as int] == ';');
        assert forall|j: int| 0 <= j < tok.len() implies s[j] != ';' by {
            assert(s[j] == tok[j]);
        }
        lemma_find_char_at(s, ';', tok.len() as int);
        assert(s.take(tok.len() as int) =~= tok);
        assert(s.skip(tok.len() as int + 1) =~= head + params_text(ps.drop_first()));
        assert forall|i: int| 0 <= i < ps.drop_first().len() implies wf_param(
            #[trigger] ps.drop_first()[i],
        ) by {
            assert(ps.drop_first()[i] == ps[i + 1]);
        }
        lemma_split_params(head, ps.drop_first());
        assert(seq![tok] + (seq![head] + param_tokens(ps.drop_first())) =~= seq![tok]
            + param_tokens(ps));
    }
}

/// One serialized parameter token splits back into its key and value.
proof fn lemma_param_of_token(p: (Seq<char>, Seq<char>))
    requires
        wf_param(p),
    ensures
        param_of_token(param_token(p)) == p,
{
    let t = param_token(p);
    assert(t[p.0.len() as int] == '=');
    assert forall|j: int| 0 <= j < p.0.len() implies t[j] != '=' by {
        assert(t[j] == p.0[j]);
    }
    lemma_find_char_at(t, '=', p.0.len() as int);
    assert(t.take(p.0.len() as int) =~= p.0);
    assert(t.skip(p.0.len() as int + 1) =~= p.1);
}

/// Folding the serialized parameter tokens back through map insertion
/// reproduces the given list, keys being distinct.
proof fn lemma_params_of_tokens(
    ps: Seq<(Seq<char>, Seq<char>)>,
    acc: Seq<(Seq<char>, Seq<char>)>,
)
    requires
        forall|i: int| 0 <= i < ps.len() ==> wf_param(#[trigger] ps[i]),
        distinct_keys(ps),
        forall|i: int, j: int|
            0 <= i < acc.len() && 0 <= j < ps.len() ==> (#[trigger] acc[i]).0 != (
            #[trigger] ps[j]).0,
    ensures
        params_of_tokens(param_tokens(ps), acc) == acc + ps,
    decreases ps.len(),
{
    if ps.len() == 0 {
        assert(acc + ps =~= acc);
    } else {
        let toks = param_tokens(ps);
        assert(toks[0] == param_token(ps[0]));
        lemma_param_of_token(ps[0]);
        assert forall|i: int| 0 <= i < acc.len() implies (#[trigger] acc[i]).0 != ps[0].0 by {
        }
        crate::parser::lemma_params_insert_absent(acc, ps[0].0, ps[0].1);
        let acc2 = acc.push(ps[0]);
        assert(toks.drop_first() =~= param_tokens(ps.drop_first()));
        assert forall|i: int| 0 <= i < ps.drop_first().len() implies wf_param(
            #[trigger] ps.drop_first()[i],
        ) by {
            assert(ps.drop_first()[i] == ps[i + 1]);
        }
        assert forall|i: int, j: int|
            0 <= i < j < ps.drop_first().len() implies (#[trigger] ps.drop_first()[i]).0 != (
        #[trigger] ps.drop_first()[j]).0 by {
            assert(ps.drop_first()[i] == ps[i + 1]);
            assert(ps.drop_first()[j] == ps[j + 1]);
        }
        assert forall|i: int, j: int|
            0 <= i < acc2.len() && 0 <= j < ps.drop_first().len() implies (#[trigger] acc2[i]).0
            != (#[trigger] ps.drop_first()[j]).0 by {
            assert(ps.drop_first()[j] == ps[j + 1]);
            if i < acc.len() {
                assert(acc2[i] == acc[i]);
            } else {
                assert(acc2[i] == ps[0]);
            }
        }
        lemma_params_of_tokens(ps.drop_first(), acc2);
        assert(acc.push(ps[0]) + ps.drop_first() =~= acc + ps);
    }
}

/// A well-formed property's serialized line parses back to the property.
pub proof fn lemma_parse_prop_line(p: AbsProp)
    requires
        wf_prop(p),
    ensures
        parse_line_spec(prop_line(p)) == SpecLine::Prop(p),
{
    let l = prop_line(p);
    let left = p.name + params_text(p.params);
    assert(l =~= left + seq![':'] + escape_seq(p.value));
    let m = p.name.len() as int;
    lemma_params_text_plain(p.params);
    // the line is no control line
    assert forall|kw: Seq<char>|
        kw == begin_kw() || kw == end_kw() implies !starts_ci(l, kw) by {
        if starts_ci(l, kw) {
            let n = kw.len() as int;
            assert(l.len() >= n);
            assert(kw[n - 1] == ':');
            assert(eq_char_ci(l.take(n)[n - 1], kw[n - 1]));
            assert(l.take(n)[n - 1] == l[n - 1]);
            lemma_ci_colon(l[n - 1]);
            assert(l[n - 1] == ':');
            if n - 1 < m {
                assert(l[n - 1] == p.name[n - 1]);
                assert(plain_char(p.name[n - 1]));
                assert(false);
            } else if n - 1 < left.len() {
                assert(l[n - 1] == params_text(p.params)[n - 1 - m]);
                assert(false);
            } else {
                // the colon at position n - 1 is the value separator, so the
                // name plus parameter text is exactly the keyword's stem
                assert(left.len() == n - 1);
                if p.params.len() > 0 {
                    assert(params_text(p.params)[0] == ';');
                    assert(l[m] == ';');
                    assert(m < n - 1 || m == n - 1);
                    if m < n - 1 {
                        assert(eq_char_ci(l.take(n)[m], kw[m]));
                        assert(l.take(n)[m] == ';');
                        assert(kw == begin_kw() || kw == end_kw());
                        assert(!eq_char_ci(';', kw[m]));
                        assert(false);
                    } else {
                        assert(left.len() == m + params_text(p.params).len());
                        assert(params_text(p.params).len() == 0);
                        assert(params_text(p.params).len() >= 1 + param_text(
                            p.params[0],
                        ).len() - param_text(p.params[0]).len());
                        assert(param_text(p.params[0]).len() >= 2);
                        assert(params_text(p.params) == param_text(p.params[0]) + params_text(
                            p.params.drop_first(),
                        ));
                        assert(false);
                    }
                } else {
                    assert(params_text(p.params).len() == 0);
                    assert(m == n - 1);
                    assert forall|i: int| 0 <= i < m implies eq_char_ci(p.name[i], kw[i]) by {
                        assert(eq_char_ci(l.take(n)[i], kw[i]));
                        assert(l.take(n)[i] == l[i]);
                        assert(l[i] == p.name[i]);
                    }
                    assert(kw.take(n - 1) =~= (if kw == begin_kw() {
                        seq!['B', 'E', 'G', 'I', 'N']
                    } else {
                        seq!['E', 'N', 'D']
                    }));
                    assert(eq_seq_ci(p.name, kw.take(n - 1)));
                    assert(false);
                }
            }
        }
    }
    assert(!starts_ci(l, begin_kw()));
    assert(!starts_ci(l, end_kw()));
    // the first unescaped colon is the value separator
    assert forall|i: int| 0 <= i < left.len() implies (#[trigger] left[i]) != ':' && left[i]
        != '\\' by {
        if i < m {
            assert(left[i] == p.name[i]);
        } else {
            assert(left[i] == params_text(p.params)[i - m]);
        }
    }
    lemma_find_colon_plain(left, escape_seq(p.value));
    assert(find_colon(l) == left.len());
    assert(find_colon(l) < l.len());
    assert(l.take(left.len() as int) =~= left);
    assert(l.skip(left.len() as int + 1) =~= escape_seq(p.value));
    // the left segment splits into the name and the parameter tokens
    assert forall|i: int| 0 <= i < p.name.len() implies (#[trigger] p.name[i]) != ';' by {
        assert(plain_char(p.name[i]));
    }
    lemma_split_params(p.name, p.params);
    let toks = split_on(left, ';');
    assert(toks == seq![p.name] + param_tokens(p.params));
    assert(toks[0] == p.name);
    assert(toks.drop_first() =~= param_tokens(p.params));
    lemma_params_of_tokens(p.params, Seq::<(Seq<char>, Seq<char>)>::empty());
    assert(Seq::<(Seq<char>, Seq<char>)>::empty() + p.params =~= p.params);
    // the value decodes back
    lemma_unescape_escape(p.value);
}

/// Case-insensitive equality is reflexive.
proof fn lemma_ci_refl(s: Seq<char>)
    ensures
        eq_seq_ci(s, s),
{
}

/// The component a `BEGIN` line opens.
pub open spec fn empty_comp(name: Seq<char>) -> AbsComp {
    AbsComp { name, props: Seq::<AbsProp>::empty(), children: Seq::<AbsComp>::empty() }
}

/// Property lines extend the innermost open component's properties, in
/// order.
proof fn lemma_build_props(ps: Seq<AbsProp>, rest: Seq<Seq<char>>, stack: Seq<AbsComp>)
    requires
        stack.len() > 0,
        forall|i: int| 0 <= i < ps.len() ==> wf_prop(#[trigger] ps[i]),
    ensures
        build_lines(prop_lines(ps) + rest, stack, None) == build_lines(
            rest,
            stack.update(
                stack.len() - 1,
                AbsComp { props: stack.last().props + ps, ..stack.last() },
            ),
            None,
        ),
    decreases ps.len(),
{
    if ps.len() == 0 {
        assert(prop_lines(ps) + rest =~= rest);
        assert(stack.last().props + ps =~= stack.last().props);
        assert(stack.update(
            stack.len() - 1,
            AbsComp { props: stack.last().props + ps, ..stack.last() },
        ) =~= stack);
    } else {
        let lines = prop_lines(ps) + rest;
        assert(lines[0] == prop_line(ps[0]));
        lemma_parse_prop_line(ps[0]);
        assert(lines.drop_first() =~= prop_lines(ps.drop_first()) + rest);
        let top = stack.last();
        let stack2 = stack.update(
            stack.len() - 1,
            AbsComp { props: top.props.push(ps[0]), ..top },
        );
        assert(stack2.len() == stack.len());
        assert(stack2.last() == AbsComp { props: top.props.push(ps[0]), ..top });
        assert forall|i: int| 0 <= i < ps.drop_first().len() implies wf_prop(
            #[trigger] ps.drop_first()[i],
        ) by {
            assert(ps.drop_first()[i] == ps[i + 1]);
        }
        lemma_build_props(ps.drop_first(), rest, stack2);
        assert(top.props.push(ps[0]) + ps.drop_first() =~= top.props + ps);
        assert(stack2.update(
            stack2.len() - 1,
            AbsComp { props: stack2.last().props + ps.drop_first(), ..stack2.last() },
        ) =~= stack.update(
            stack.len() - 1,
            AbsComp { props: stack.last().props + ps, ..stack.last() },
        ));
    }
}

/// The serialized lines of one well-formed component, fed to the stack
/// machine, append exactly that component: to the innermost open
/// component's children when one is open, as the completed root otherwise.
pub proof fn lemma_build_component(c: AbsComp, rest: Seq<Seq<char>>, stack: Seq<AbsComp>)
    requires
        wf_comp(c),
    ensures
        build_lines(write_lines(c) + rest, stack, None) == (if stack.len() == 0 {
            build_lines(rest, stack, Some(c))
        } else {
            build_lines(
                rest,
                stack.update(
                    stack.len() - 1,
                    AbsComp { children: stack.last().children.push(c), ..stack.last() },
                ),
                None,
            )
        }),
    decreases c,
{
    let lines = write_lines(c) + rest;
    assert(lines[0] == begin_line(c.name));
    lemma_parse_begin(c.name);
    let stack1 = stack.push(empty_comp(c.name));
    let rest_c = children_lines(c.children) + (seq![end_line(c.name)] + rest);
    let rest_e = seq![end_line(c.name)] + rest;
    assert(lines.drop_first() =~= prop_lines(c.props) + rest_c);
    lemma_build_props(c.props, rest_c, stack1);
    let comp_p = AbsComp { props: empty_comp(c.name).props + c.props, ..empty_comp(c.name) };
    let stack2 = stack1.update(stack1.len() - 1, comp_p);
    assert(empty_comp(c.name).props + c.props =~= c.props);
    assert(comp_p == AbsComp { name: c.name, props: c.props, children: Seq::<AbsComp>::empty() });
    assert(stack2.len() == stack.len() + 1);
    lemma_build_children(c.children, rest_e, stack2);
    let comp_pc = AbsComp { children: stack2.last().children + c.children, ..stack2.last() };
    let stack3 = stack2.update(stack2.len() - 1, comp_pc);
    assert(stack2.last() == comp_p);
    assert(Seq::<AbsComp>::empty() + c.children =~= c.children);
    assert(comp_pc == AbsComp { name: c.name, props: c.props, children: c.children });
    assert(comp_pc == c);
    // the END line closes the component
    assert(rest_e[0] == end_line(c.name));
    lemma_parse_end(c.name);
    assert(rest_e.drop_first() =~= rest);
    assert(stack3.len() == stack.len() + 1);
    assert(stack3.last() == c);
    lemma_ci_refl(c.name);
    assert(eq_seq_ci(stack3.last().name, c.name));
    assert(stack3.drop_last() =~= stack);
    if stack.len() == 0 {
    } else {
        assert(stack3.drop_last().last() == stack.last());
    }
}

/// The serialized lines of a sequence of well-formed components extend the
/// innermost open component's children by them, in order.
proof fn lemma_build_children(cs: Seq<AbsComp>, rest: Seq<Seq<char>>, stack: Seq<AbsComp>)
    requires
        stack.len() > 0,
        forall|i: int| 0 <= i < cs.len() ==> wf_comp(#[trigger] cs[i]),
    ensures
        build_lines(children_lines(cs) + rest, stack, None) == build_lines(
            rest,
            stack.update(
                stack.len() - 1,
                AbsComp { children: stack.last().children + cs, ..stack.last() },
            ),
            None,
        ),
    decreases cs,
{
    if cs.len() == 0 {
        assert(children_lines(cs) + rest =~= rest);
        assert(stack.last().children + cs =~= stack.last().children);
        assert(stack.update(
            stack.len() - 1,
            AbsComp { children: stack.last().children + cs, ..stack.last() },
        ) =~= stack);
    } else {
        assert(children_lines(cs) + rest =~= write_lines(cs[0]) + (children_lines(cs.drop_first())
            + rest));
        lemma_build_component(cs[0], children_lines(cs.drop_first()) + rest, stack);
        let top = stack.last();
        let stack2 = stack.update(
            stack.len() - 1,
            AbsComp { children: top.children.push(cs[0]), ..top },
        );
        assert(stack2.len() == stack.len());
        assert(stack2.last() == AbsComp { children: top.children.push(cs[0]), ..top });
        assert forall|i: int| 0 <= i < cs.drop_first().len() implies wf_comp(
            #[trigger] cs.drop_first()[i],
        ) by {
            assert(cs.drop_first()[i] == cs[i + 1]);
        }
        lemma_build_children(cs.drop_first(), rest, stack2);
        assert(top.children.push(cs[0]) + cs.drop_first() =~= top.children + cs);
        assert(stack2.update(
            stack2.len() - 1,
            AbsComp { children: stack2.last().children + cs.drop_first(), ..stack2.last() },
        ) =~= stack.update(
            stack.len() - 1,
            AbsComp { children: stack.last().children + cs, ..stack.last() },
        ));
    }
}

/// Every serialized line of a well-formed component is a well-formed
/// logical line: non-empty, not fold-continuation-shaped, newline-free.
pub proof fn lemma_write_lines_wf(c: AbsComp)
    requires
        wf_comp(c),
    ensures
        forall|i: int|
            0 <= i < write_lines(c).len() ==> wf_logical_line(#[trigger] write_lines(c)[i]),
    decreases c,
{
    let bl = begin_line(c.name);
    assert(bl[0] == 'B');
    assert forall|j: int| 0 <= j < bl.len() implies bl[j] != '\n' by {
        if j >= begin_kw().len() {
            assert(bl[j] == c.name[j - begin_kw().len()]);
        }
    }
    assert(wf_logical_line(bl));
    let el = end_line(c.name);
    assert(el[0] == 'E');
    assert forall|j: int| 0 <= j < el.len() implies el[j] != '\n' by {
        if j >= end_kw().len() {
            assert(el[j] == c.name[j - end_kw().len()]);
        }
    }
    assert(wf_logical_line(el));
    assert forall|i: int| 0 <= i < c.props.len() implies wf_logical_line(
        prop_line(#[trigger] c.props[i]),
    ) by {
        lemma_prop_line_wf(c.props[i]);
    }
    lemma_prop_lines_all_wf(c.props);
    lemma_children_lines_all_wf(c.children);
    let pl = prop_lines(c.props);
    let cl = children_lines(c.children);
    assert forall|i: int| 0 <= i < write_lines(c).len() implies wf_logical_line(
        #[trigger] write_lines(c)[i],
    ) by {
        let w = write_lines(c);
        if i == 0 {
            assert(w[i] == bl);
        } else if i < 1 + pl.len() {
            assert(w[i] == pl[i - 1]);
        } else if i < 1 + pl.len() + cl.len() {
            assert(w[i] == cl[i - 1 - pl.len()]);
        } else {
            assert(w[i] == el);
        }
    }
}

/// One well-formed property's line is a well-formed logical line.
proof fn lemma_prop_line_wf(p: AbsProp)
    requires
        wf_prop(p),
    ensures
        wf_logical_line(prop_line(p)),
{
    let l = prop_line(p);
    let m = p.name.len() as int;
    let pt = params_text(p.params);
    assert(l.len() > 0);
    lemma_params_text_plain(p.params);
    lemma_escape_no_newline(p.value);
    if m > 0 {
        assert(l[0] == p.name[0]);
    } else if pt.len() > 0 {
        assert(pt == param_text(p.params[0]) + params_text(p.params.drop_first()));
        assert(pt[0] == ';');
        assert(l[0] == pt[0]);
    } else {
        assert(l[0] == ':');
    }
    assert(l[0] != ' ' && l[0] != '\t');
    assert forall|j: int| 0 <= j < l.len() implies l[j] != '\n' by {
        if j < m {
            assert(l[j] == p.name[j]);
            assert(plain_char(p.name[j]));
        } else if j < m + pt.len() {
            assert(l[j] == pt[j - m]);
        } else if j == m + pt.len() {
            assert(l[j] == ':');
        } else {
            assert(l[j] == escape_seq(p.value)[j - m - pt.len() - 1]);
        }
    }
}

/// The property lines of well-formed properties are well-formed logical
/// lines.
proof fn lemma_prop_lines_all_wf(ps: Seq<AbsProp>)
    requires
        forall|i: int| 0 <= i < ps.len() ==> wf_prop(#[trigger] ps[i]),
    ensures
        forall|i: int|
            0 <= i < prop_lines(ps).len() ==> wf_logical_line(#[trigger] prop_lines(ps)[i]),
    decreases ps.len(),
{
    if ps.len() == 0 {
    } else {
        lemma_prop_line_wf(ps[0]);
        assert forall|i: int| 0 <= i < ps.drop_first().len() implies wf_prop(
            #[trigger] ps.drop_first()[i],
        ) by {
            assert(ps.drop_first()[i] == ps[i + 1]);
        }
        lemma_prop_lines_all_wf(ps.drop_first());
        assert forall|i: int| 0 <= i < prop_lines(ps).len() implies wf_logical_line(
            #[trigger] prop_lines(ps)[i],
        ) by {
            if i == 0 {
                assert(prop_lines(ps)[i] == prop_line(ps[0]));
            } else {
                assert(prop_lines(ps)[i] == prop_lines(ps.drop_first())[i - 1]);
            }
        }
    }
}

/// The serialized lines of well-formed components are well-formed logical
/// lines.
proof fn lemma_children_lines_all_wf(cs: Seq<AbsComp>)
    requires
        forall|i: int| 0 <= i < cs.len() ==> wf_comp(#[trigger] cs[i]),
    ensures
        forall|i: int|
            0 <= i < children_lines(cs).len() ==> wf_logical_line(
                #[trigger] children_lines(cs)[i],
            ),
    decreases cs,
{
    if cs.len() == 0 {
    } else {
        lemma_write_lines_wf(cs[0]);
        assert forall|i: int| 0 <= i < cs.drop_first().len() implies wf_comp(
            #[trigger] cs.drop_first()[i],
        ) by {
            assert(cs.drop_first()[i] == cs[i + 1]);
        }
        lemma_children_lines_all_wf(cs.drop_first());
        assert forall|i: int| 0 <= i < children_lines(cs).len() implies wf_logical_line(
            #[trigger] children_lines(cs)[i],
        ) by {
            let a = write_lines(cs[0]);
            if i < a.len() {
                assert(children_lines(cs)[i] == a[i]);
            } else {
                assert(children_lines(cs)[i] == children_lines(cs.drop_first())[i - a.len()]);
            }
        }
    }
}

/// Structural rejection, first half: a `BEGIN:<X>` followed by property
/// lines and no matching `END` always fails as an unterminated component
/// named `X`.
pub proof fn lemma_unterminated_begin(x: Seq<char>, ps: Seq<AbsProp>)
    requires
        forall|i: int| 0 <= i < ps.len() ==> wf_prop(#[trigger] ps[i]),
    ensures
        build_lines(seq![begin_line(x)] + prop_lines(ps), Seq::<AbsComp>::empty(), None) == Err::<
            AbsComp,
            AbsError,
        >(AbsError::Unterminated(x)),
{
    let lines = seq![begin_line(x)] + prop_lines(ps);
    assert(lines[0] == begin_line(x));
    lemma_parse_begin(x);
    let stack1 = Seq::<AbsComp>::empty().push(empty_comp(x));
    assert(lines.drop_first() =~= prop_lines(ps) + Seq::<Seq<char>>::empty());
    lemma_build_props(ps, Seq::<Seq<char>>::empty(), stack1);
    let stack2 = stack1.update(0, AbsComp { props: empty_comp(x).props + ps, ..empty_comp(x) });
    assert(stack2.len() == 1);
    assert(stack2.last().name == x);
}

/// Structural rejection, second half: a `BEGIN:<X>` followed by property
/// lines and an `END:<Y>` whose tag differs from `X` (up to ASCII case)
/// always fails as a tag mismatch naming the expected and the found tag.
pub proof fn lemma_end_tag_mismatch(x: Seq<char>, ps: Seq<AbsProp>, y: Seq<char>)
    requires
        forall|i: int| 0 <= i < ps.len() ==> wf_prop(#[trigger] ps[i]),
        !eq_seq_ci(x, y),
    ensures
        build_lines(
            seq![begin_line(x)] + prop_lines(ps) + seq![end_line(y)],
            Seq::<AbsComp>::empty(),
            None,
        ) == Err::<AbsComp, AbsError>(AbsError::TagMismatch { expected: x, found: y }),
{
    let lines = seq![begin_line(x)] + prop_lines(ps) + seq![end_line(y)];
    assert(lines[0] == begin_line(x));
    lemma_parse_begin(x);
    let stack1 = Seq::<AbsComp>::empty().push(empty_comp(x));
    assert(lines.drop_first() =~= prop_lines(ps) + seq![end_line(y)]);
    lemma_build_props(ps, seq![end_line(y)], stack1);
    let stack2 = stack1.update(0, AbsComp { props: empty_comp(x).props + ps, ..empty_comp(x) });
    assert(stack2.len() == 1);
    assert(stack2.last().name == x);
    assert(seq![end_line(y)][0] == end_line(y));
    lemma_parse_end(y);
    assert(!eq_seq_ci(stack2.last().name, y));
}

/// A backslash-free sequence leaves the escape scanner outside an escape.
proof fn lemma_esc_scan_clean(s: Seq<char>)
    requires
        forall|i: int| 0 <= i < s.len() ==> (#[trigger] s[i]) != '\\',
    ensures
        esc_scan(s, false) == false,
    decreases s.len(),
{
    if s.len() == 0 {
    } else {
        assert forall|i: int| 0 <= i < s.skip(1).len() implies (#[trigger] s.skip(1)[i])
            != '\\' by {
            assert(s.skip(1)[i] == s[i + 1]);
        }
        lemma_esc_scan_clean(s.skip(1));
    }
}

/// Escaped text leaves the escape scanner outside an escape.
proof fn lemma_escape_scan(v: Seq<char>)
    ensures
        esc_scan(escape_seq(v), false) == false,
    decreases v.len(),
{
    if v.len() == 0 {
    } else {
        lemma_escape_scan(v.skip(1));
        let ec = escape_char(v[0]);
        assert(escape_seq(v) == ec + escape_seq(v.skip(1)));
        lemma_esc_scan_concat(ec, escape_seq(v.skip(1)), false);
        if ec.len() == 2 {
            assert(ec[0] == '\\');
            assert(ec.skip(1) =~= seq![ec[1]]);
            lemma_esc_scan_single(ec[1], true);
            assert(esc_scan(ec, false) == false);
        } else {
            assert(ec =~= seq![v[0]]);
            assert(v[0] != '\\');
            lemma_esc_scan_single(v[0], false);
            assert(esc_scan(ec, false) == false);
        }
    }
}

/// The serializer never splits inside an escape sequence: a well-formed
/// property's logical line ends outside an escape, and so does every folded
/// physical line made from it.
pub proof fn lemma_prop_line_no_split(p: AbsProp)
    requires
        wf_prop(p),
    ensures
        !esc_parity(prop_line(p)),
        forall|i: int|
            0 <= i < fold_physical(prop_line(p)).len() ==> !esc_parity(
                #[trigger] fold_physical(prop_line(p))[i],
            ),
{
    let left = p.name + params_text(p.params);
    let l = prop_line(p);
    lemma_params_text_plain(p.params);
    assert forall|i: int| 0 <= i < left.len() implies (#[trigger] left[i]) != '\\' by {
        if i < p.name.len() {
            assert(left[i] == p.name[i]);
            assert(plain_char(p.name[i]));
        } else {
            assert(left[i] == params_text(p.params)[i - p.name.len()]);
        }
    }
    lemma_esc_scan_clean(left);
    assert(l =~= left + (seq![':'] + escape_seq(p.value)));
    lemma_esc_scan_concat(left, seq![':'] + escape_seq(p.value), false);
    lemma_esc_scan_concat(seq![':'], escape_seq(p.value), false);
    lemma_esc_scan_single(':', false);
    lemma_escape_scan(p.value);
    lemma_esc_scan_parity(l);
    lemma_fold_no_split_escape(l);
}

/// The round trip of the core: parsing the serialization of any well-formed
/// component tree yields exactly that tree, in name, ordered properties
/// (name, parameters, decoded value) and child structure.
pub proof fn lemma_parse_write_roundtrip(c: AbsComp)
    requires
        wf_comp(c),
    ensures
        parse_spec(write_spec(c)) == Ok::<AbsComp, AbsError>(c),
{
    lemma_write_lines_wf(c);
    lemma_logical_lines_render(write_lines(c));
    lemma_build_component(c, Seq::<Seq<char>>::empty(), Seq::<AbsComp>::empty());
    assert(write_lines(c) + Seq::<Seq<char>>::empty() =~= write_lines(c));
    assert(build_lines(Seq::<Seq<char>>::empty(), Seq::<AbsComp>::empty(), Some(c))
        == Ok::<AbsComp, AbsError>(c));
}

} // verus!