//! Properties and the escape codec.
//!
//! A property value is stored decoded: the two-character escape sequences
//! `\\`, `\;`, `\,` and `\n`/`\N` never appear in `raw_value`; they are
//! resolved by `unescape_chars` when a line is parsed and reintroduced by
//! `escape_chars` when a tree is serialized.

use vstd::prelude::*;

use crate::strutil::chars_to_string;
use crate::strutil::str_chars;

verus! {

/// One parameter of a property: a key/value modifier such as `TYPE=work`.
#[derive(Debug)]
pub struct Param {
    pub key: String,
    pub value: String,
}

/// A named value with parameters, belonging to a component.
#[derive(Debug)]
pub struct Property {
    pub name: String,
    pub params: Vec<Param>,
    pub raw_value: String,
}

/// The models of a parameter vector.
pub open spec fn abs_params(ps: Seq<Param>) -> Seq<(Seq<char>, Seq<char>)> {
    ps.map_values(|p: Param| p.abs())
}

impl Clone for Param {
    fn clone(&self) -> (r: Self)
        ensures
            r.abs() == self.abs(),
    {
        Param { key: self.key.clone(), value: self.value.clone() }
    }
}

impl Clone for Property {
    fn clone(&self) -> (r: Self)
        ensures
            r.abs() == self.abs(),
    {
        let mut params: Vec<Param> = Vec::new();
        let mut i: usize = 0;
        proof {
            assert(abs_params(params@) =~= abs_params(self.params@).take(0));
        }
        while i < self.params.len()
            invariant
                i <= self.params@.len(),
                abs_params(params@) == abs_params(self.params@).take(i as int),
            decreases self.params@.len() - i,
        {
            let ghost ps0 = params@;
            params.push(self.params[i].clone());
            proof {
                assert(params@.len() == ps0.len() + 1);
                assert(ps0.len() == abs_params(ps0).len());
                assert(abs_params(ps0).len() == i);
                assert(abs_params(params@).len() == i + 1);
                assert forall|j: int| 0 <= j < i + 1 implies abs_params(params@)[j] == abs_params(
                    self.params@,
                ).take(i + 1 as int)[j] by {
                    assert(abs_params(params@)[j] == params@[j].abs());
                    assert(abs_params(self.params@)[j] == self.params@[j].abs());
                    if j < i {
                        assert(params@[j] == ps0[j]);
                        assert(abs_params(ps0)[j] == ps0[j].abs());
                        assert(abs_params(self.params@).take(i as int)[j] == abs_params(
                            self.params@,
                        )[j]);
                    }
                }
                assert(abs_params(params@) =~= abs_params(self.params@).take(i + 1 as int));
            }
            i = i + 1;
        }
        proof {
            assert(abs_params(self.params@).take(self.params@.len() as int) =~= abs_params(
                self.params@,
            ));
        }
        Property { name: self.name.clone(), params, raw_value: self.raw_value.clone() }
    }
}

/// The models of a sequence of properties.
pub open spec fn abs_props(ps: Seq<Property>) -> Seq<AbsProp> {
    ps.map_values(|p: Property| p.abs())
}

/// Mathematical model of a property: plain character sequences.
pub ghost struct AbsProp {
    pub name: Seq<char>,
    pub params: Seq<(Seq<char>, Seq<char>)>,
    pub value: Seq<char>,
}

impl Param {
    pub open spec fn abs(&self) -> (Seq<char>, Seq<char>) {
        (self.key@, self.value@)
    }
}

impl Property {
    pub open spec fn abs(&self) -> AbsProp {
        AbsProp {
            name: self.name@,
            params: abs_params(self.params@),
            value: self.raw_value@,
        }
    }

    /// A property with the given name and decoded value, and no parameters.
    pub fn new(name: String, raw_value: String) -> (r: Property)
        ensures
            r.abs() == (AbsProp { name: name@, params: Seq::<(Seq<char>, Seq<char>)>::empty(), value: raw_value@ }),
    {
        let r = Property { name, params: Vec::new(), raw_value };
        proof {
            assert(abs_params(r.params@) =~= Seq::<(Seq<char>, Seq<char>)>::empty());
        }
        r
    }
}

/// Decoding of an escaped character sequence, left to right: `\\` becomes
/// `\`, `\;` becomes `;`, `\,` becomes `,`, `\n` and `\N` become a newline.
/// An unknown two-character sequence after a backslash passes through
/// unchanged; a trailing lone backslash passes through as well.
pub open spec fn unescape_seq(s: Seq<char>) -> Seq<char>
    decreases s.len(),
{
    if s.len() == 0 {
        Seq::<char>::empty()
    } else if s[0] == '\\' && s.len() >= 2 {
        if s[1] == '\\' {
            seq!['\\'] + unescape_seq(s.skip(2))
        } else if s[1] == ';' {
            seq![';'] + unescape_seq(s.skip(2))
        } else if s[1] == ',' {
            seq![','] + unescape_seq(s.skip(2))
        } else if s[1] == 'n' || s[1] == 'N' {
            seq!['\n'] + unescape_seq(s.skip(2))
        } else {
            seq![s[0], s[1]] + unescape_seq(s.skip(2))
        }
    } else {
        seq![s[0]] + unescape_seq(s.skip(1))
    }
}

/// Encoding of one character: the four reserved characters become their
/// two-character escape sequences, every other character stands by itself.
pub open spec fn escape_char(c: char) -> Seq<char> {
    if c == '\\' {
        seq!['\\', '\\']
    } else if c == ';' {
        seq!['\\', ';']
    } else if c == ',' {
        seq!['\\', ',']
    } else if c == '\n' {
        seq!['\\', 'n']
    } else {
        seq![c]
    }
}

/// Encoding of a raw value, character by character.
pub open spec fn escape_seq(s: Seq<char>) -> Seq<char>
    decreases s.len(),
{
    if s.len() == 0 {
        Seq::<char>::empty()
    } else {
        escape_char(s[0]) + escape_seq(s.skip(1))
    }
}

/// A sequence is well-formed escaped text when every backslash starts one of
/// the four escape sequences (with a lowercase `n`) and the reserved
/// characters `;`, `,` and newline never appear bare. `escape_seq` produces
/// exactly such text from values free of lone `\N` ambiguity.
pub open spec fn wf_escaped(s: Seq<char>) -> bool
    decreases s.len(),
{
    if s.len() == 0 {
        true
    } else if s[0] == '\\' {
        s.len() >= 2 && (s[1] == '\\' || s[1] == ';' || s[1] == ',' || s[1] == 'n') && wf_escaped(
            s.skip(2),
        )
    } else {
        s[0] != ';' && s[0] != ',' && s[0] != '\n' && wf_escaped(s.skip(1))
    }
}

/// Decoding undoes encoding on every value: `unescape_seq(escape_seq(v)) == v`.
pub proof fn lemma_unescape_escape(v: Seq<char>)
    ensures
        unescape_seq(escape_seq(v)) == v,
    decreases v.len(),
{
    if v.len() == 0 {
        assert(escape_seq(v) =~= Seq::<char>::empty());
        assert(unescape_seq(escape_seq(v)) =~= v);
    } else {
        let rest = v.skip(1);
        lemma_unescape_escape(rest);
        let e = escape_seq(v);
        assert(e == escape_char(v[0]) + escape_seq(rest));
        if v[0] == '\\' || v[0] == ';' || v[0] == ',' || v[0] == '\n' {
            assert(escape_char(v[0]).len() == 2);
            assert(e[0] == '\\');
            assert(e.len() >= 2);
            assert(e.skip(2) =~= escape_seq(rest));
            assert(unescape_seq(e) =~= seq![v[0]] + rest);
            assert(seq![v[0]] + rest =~= v);
        } else {
            assert(escape_char(v[0]) =~= seq![v[0]]);
            assert(e[0] == v[0]);
            assert(e.len() >= 1);
            assert(e.skip(1) =~= escape_seq(rest));
            if e.len() >= 2 {
                assert(e[0] != '\\');
            }
            assert(unescape_seq(e) =~= seq![v[0]] + rest);
            assert(seq![v[0]] + rest =~= v);
        }
    }
}

/// Encoding undoes decoding on well-formed escaped text:
/// `escape_seq(unescape_seq(s)) == s` whenever `wf_escaped(s)` holds.
pub proof fn lemma_escape_unescape(s: Seq<char>)
    requires
        wf_escaped(s),
    ensures
        escape_seq(unescape_seq(s)) == s,
    decreases s.len(),
{
    if s.len() == 0 {
        assert(escape_seq(unescape_seq(s)) =~= s);
    } else if s[0] == '\\' {
        let rest = s.skip(2);
        lemma_escape_unescape(rest);
        let c: char = if s[1] == '\\' {
            '\\'
        } else if s[1] == ';' {
            ';'
        } else if s[1] == ',' {
            ','
        } else {
            '\n'
        };
        assert(unescape_seq(s) == seq![c] + unescape_seq(rest));
        let u = seq![c] + unescape_seq(rest);
        assert(u.len() >= 1 && u[0] == c);
        assert(u.skip(1) =~= unescape_seq(rest));
        assert(escape_seq(u) == escape_char(c) + escape_seq(unescape_seq(rest)));
        assert(escape_char(c) =~= seq![s[0], s[1]]);
        assert(escape_char(c) + rest =~= s);
    } else {
        let rest = s.skip(1);
        lemma_escape_unescape(rest);
        assert(unescape_seq(s) == seq![s[0]] + unescape_seq(rest));
        let u = seq![s[0]] + unescape_seq(rest);
        assert(u.len() >= 1 && u[0] == s[0]);
        assert(u.skip(1) =~= unescape_seq(rest));
        assert(escape_char(s[0]) =~= seq![s[0]]);
        assert(escape_seq(u) == escape_char(s[0]) + escape_seq(unescape_seq(rest)));
        assert(seq![s[0]] + rest =~= s);
    }
}

/// Decodes the escape sequences in a character vector.
pub fn unescape_vec(v: &Vec<char>) -> (r: Vec<char>)
    ensures
        r@ == unescape_seq(v@),
{
    let mut out: Vec<char> = Vec::new();
    let mut i: usize = 0;
    proof {
        assert(v@.skip(0) =~= v@);
        assert(out@ + unescape_seq(v@) =~= unescape_seq(v@));
    }
    while i < v.len()
        invariant
            i <= v.len(),
            out@ + unescape_seq(v@.skip(i as int)) == unescape_seq(v@),
        decreases v.len() - i,
    {
        let ghost pre = v@.skip(i as int);
        if v[i] == '\\' && i + 1 < v.len() {
            let e = v[i + 1];
            proof {
                assert(pre[0] == '\\' && pre.len() >= 2 && pre[1] == e);
                assert(pre.skip(2) =~= v@.skip(i + 2 as int));
            }
            if e == '\\' {
                out.push('\\');
            } else if e == ';' {
                out.push(';');
            } else if e == ',' {
                out.push(',');
            } else if e == 'n' || e == 'N' {
                out.push('\n');
            } else {
                out.push('\\');
                out.push(e);
            }
            proof {
                assert(out@ + unescape_seq(v@.skip(i + 2 as int)) =~= unescape_seq(v@));
            }
            i = i + 2;
        } else {
            proof {
                assert(pre[0] == v@[i as int]);
                assert(!(pre[0] == '\\' && pre.len() >= 2));
                assert(pre.skip(1) =~= v@.skip(i + 1 as int));
            }
            out.push(v[i]);
            proof {
                assert(out@ + unescape_seq(v@.skip(i + 1 as int)) =~= unescape_seq(v@));
            }
            i = i + 1;
        }
    }
    proof {
        assert(v@.skip(v@.len() as int) =~= Seq::<char>::empty());
        assert(out@ =~= unescape_seq(v@));
    }
    out
}

/// Encodes the reserved characters of a character vector.
pub fn escape_vec(v: &Vec<char>) -> (r: Vec<char>)
    ensures
        r@ == escape_seq(v@),
{
    let mut out: Vec<char> = Vec::new();
    let mut i: usize = 0;
    proof {
        assert(v@.skip(0) =~= v@);
        assert(out@ + escape_seq(v@) =~= escape_seq(v@));
    }
    while i < v.len()
        invariant
            i <= v.len(),
            out@ + escape_seq(v@.skip(i as int)) == escape_seq(v@),
        decreases v.len() - i,
    {
        let ghost pre = v@.skip(i as int);
        proof {
            assert(pre[0] == v@[i as int]);
            assert(pre.skip(1) =~= v@.skip(i + 1 as int));
        }
        let c = v[i];
        if c == '\\' {
            out.push('\\');
            out.push('\\');
        } else if c == ';' {
            out.push('\\');
            out.push(';');
        } else if c == ',' {
            out.push('\\');
            out.push(',');
        } else if c == '\n' {
            out.push('\\');
            out.push('n');
        } else {
            out.push(c);
        }
        proof {
            assert(out@ + escape_seq(v@.skip(i + 1 as int)) =~= escape_seq(v@));
        }
        i = i + 1;
    }
    proof {
        assert(v@.skip(v@.len() as int) =~= Seq::<char>::empty());
        assert(out@ =~= escape_seq(v@));
    }
    out
}

/// Resolves the escape sequences of `input`: `\\`, `\;`, `\,` and `\n`/`\N`
/// become the characters they stand for; unknown sequences pass through
/// unchanged.
pub fn unescape_chars(input: &str) -> (r: String)
    ensures
        r@ == unescape_seq(input@),
{
    let v = str_chars(input);
    let u = unescape_vec(&v);
    chars_to_string(&u)
}

/// Escapes the reserved characters of `input`: backslash, `;`, `,` and
/// newline each become their two-character escape sequence.
pub fn escape_chars(input: &str) -> (r: String)
    ensures
        r@ == escape_seq(input@),
{
    let v = str_chars(input);
    let e = escape_vec(&v);
    chars_to_string(&e)
}

} // verus!
