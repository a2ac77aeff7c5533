//! The typed vCard layer over the generic component tree: `Vcard` checks the
//! root tag and exposes one getter per vCard property, each returning thin
//! typed wrappers around the stored raw value and parameters.

use vstd::prelude::*;

use crate::component::AbsComp;
use crate::component::Component;
use crate::component::parse_component;
use crate::component::parse_spec;
use crate::component::props_named;
use crate::error::AbsError;
use crate::error::VObjectError;
use crate::parser::split_on;
use crate::parser::split_on_exec;
use crate::parser::views;
use crate::property::AbsProp;
use crate::property::Param;
use crate::property::Property;
use crate::property::abs_params;
use crate::property::abs_props;
use crate::strutil::chars_to_string;
use crate::strutil::eq_str;
use crate::strutil::str_chars;

verus! {

/// What a typed wrapper keeps of a property: its decoded value and its
/// parameters.
pub open spec fn prop_data(p: AbsProp) -> (Seq<char>, Seq<(Seq<char>, Seq<char>)>) {
    (p.value, p.params)
}

/// A component tree whose root is named `VCARD`.
#[derive(Debug)]
pub struct Vcard(pub Component);

/// The `VERSION` property value of a vCard.
pub type Version = String;

#[derive(Debug)]
pub struct Adr(pub String, pub Vec<Param>);

impl Adr {
    pub open spec fn abs(&self) -> (Seq<char>, Seq<(Seq<char>, Seq<char>)>) {
        (self.0@, abs_params(self.1@))
    }

    /// The typed value of a generic property: its decoded value and its
    /// parameters, kept as stored.
    pub fn from_property(p: &Property) -> (r: Self)
        ensures
            r.abs() == prop_data(p.abs()),
    {
        let q = p.clone();
        Adr(q.raw_value, q.params)
    }

    /// The decoded raw value.
    pub fn raw(&self) -> (r: &String)
        ensures
            r@ == self.abs().0,
    {
        &self.0
    }
}

#[derive(Debug)]
pub struct Anniversary(pub String, pub Vec<Param>);

impl Anniversary {
    pub open spec fn abs(&self) -> (Seq<char>, Seq<(Seq<char>, Seq<char>)>) {
        (self.0@, abs_params(self.1@))
    }

    /// The typed value of a generic property: its decoded value and its
    /// parameters, kept as stored.
    pub fn from_property(p: &Property) -> (r: Self)
        ensures
            r.abs() == prop_data(p.abs()),
    {
        let q = p.clone();
        Anniversary(q.raw_value, q.params)
    }

    /// The decoded raw value.
    pub fn raw(&self) -> (r: &String)
        ensures
            r@ == self.abs().0,
    {
        &self.0
    }
}

#[derive(Debug)]
pub struct BDay(pub String, pub Vec<Param>);

impl BDay {
    pub open spec fn abs(&self) -> (Seq<char>, Seq<(Seq<char>, Seq<char>)>) {
        (self.0@, abs_params(self.1@))
    }

    /// The typed value of a generic property: its decoded value and its
    /// parameters, kept as stored.
    pub fn from_property(p: &Property) -> (r: Self)
        ensures
            r.abs() == prop_data(p.abs()),
    {
        let q = p.clone();
        BDay(q.raw_value, q.params)
    }

    /// The decoded raw value.
    pub fn raw(&self) -> (r: &String)
        ensures
            r@ == self.abs().0,
    {
        &self.0
    }
}

#[derive(Debug)]
pub struct Category(pub String, pub Vec<Param>);

impl Category {
    pub open spec fn abs(&self) -> (Seq<char>, Seq<(Seq<char>, Seq<char>)>) {
        (self.0@, abs_params(self.1@))
    }

    /// The typed value of a generic property: its decoded value and its
    /// parameters, kept as stored.
    pub fn from_property(p: &Property) -> (r: Self)
        ensures
            r.abs() == prop_data(p.abs()),
    {
        let q = p.clone();
        Category(q.raw_value, q.params)
    }

    /// The decoded raw value.
    pub fn raw(&self) -> (r: &String)
        ensures
            r@ == self.abs().0,
    {
        &self.0
    }
}

#[derive(Debug)]
pub struct ClientPidMap(pub String, pub Vec<Param>);

impl ClientPidMap {
    pub open spec fn abs(&self) -> (Seq<char>, Seq<(Seq<char>, Seq<char>)>) {
        (self.0@, abs_params(self.1@))
    }

    /// The typed value of a generic property: its decoded value and its
    /// parameters, kept as stored.
    pub fn from_property(p: &Property) -> (r: Self)
        ensures
            r.abs() == prop_data(p.abs()),
    {
        let q = p.clone();
        ClientPidMap(q.raw_value, q.params)
    }

    /// The decoded raw value.
    pub fn raw(&self) -> (r: &String)
        ensures
            r@ == self.abs().0,
    {
        &self.0
    }
}

#[derive(Debug)]
pub struct Email(pub String, pub Vec<Param>);

impl Email {
    pub open spec fn abs(&self) -> (Seq<char>, Seq<(Seq<char>, Seq<char>)>) {
        (self.0@, abs_params(self.1@))
    }

    /// The typed value of a generic property: its decoded value and its
    /// parameters, kept as stored.
    pub fn from_property(p: &Property) -> (r: Self)
        ensures
            r.abs() == prop_data(p.abs()),
    {
        let q = p.clone();
        Email(q.raw_value, q.params)
    }

    /// The decoded raw value.
    pub fn raw(&self) -> (r: &String)
        ensures
            r@ == self.abs().0,
    {
        &self.0
    }
}

#[derive(Debug)]
pub struct FullName(pub String, pub Vec<Param>);

impl FullName {
    pub open spec fn abs(&self) -> (Seq<char>, Seq<(Seq<char>, Seq<char>)>) {
        (self.0@, abs_params(self.1@))
    }

    /// The typed value of a generic property: its decoded value and its
    /// parameters, kept as stored.
    pub fn from_property(p: &Property) -> (r: Self)
        ensures
            r.abs() == prop_data(p.abs()),
    {
        let q = p.clone();
        FullName(q.raw_value, q.params)
    }

    /// The decoded raw value.
    pub fn raw(&self) -> (r: &String)
        ensures
            r@ == self.abs().0,
    {
        &self.0
    }
}

#[derive(Debug)]
pub struct Gender(pub String, pub Vec<Param>);

impl Gender {
    pub open spec fn abs(&self) -> (Seq<char>, Seq<(Seq<char>, Seq<char>)>) {
        (self.0@, abs_params(self.1@))
    }

    /// The typed value of a generic property: its decoded value and its
    /// parameters, kept as stored.
    pub fn from_property(p: &Property) -> (r: Self)
        ensures
            r.abs() == prop_data(p.abs()),
    {
        let q = p.clone();
        Gender(q.raw_value, q.params)
    }

    /// The decoded raw value.
    pub fn raw(&self) -> (r: &String)
        ensures
            r@ == self.abs().0,
    {
        &self.0
    }
}

#[derive(Debug)]
pub struct Geo(pub String, pub Vec<Param>);

impl Geo {
    pub open spec fn abs(&self) -> (Seq<char>, Seq<(Seq<char>, Seq<char>)>) {
        (self.0@, abs_params(self.1@))
    }

    /// The typed value of a generic property: its decoded value and its
    /// parameters, kept as stored.
    pub fn from_property(p: &Property) -> (r: Self)
        ensures
            r.abs() == prop_data(p.abs()),
    {
        let q = p.clone();
        Geo(q.raw_value, q.params)
    }

    /// The decoded raw value.
    pub fn raw(&self) -> (r: &String)
        ensures
            r@ == self.abs().0,
    {
        &self.0
    }
}

#[derive(Debug)]
pub struct IMPP(pub String, pub Vec<Param>);

impl IMPP {
    pub open spec fn abs(&self) -> (Seq<char>, Seq<(Seq<char>, Seq<char>)>) {
        (self.0@, abs_params(self.1@))
    }

    /// The typed value of a generic property: its decoded value and its
    /// parameters, kept as stored.
    pub fn from_property(p: &Property) -> (r: Self)
        ensures
            r.abs() == prop_data(p.abs()),
    {
        let q = p.clone();
        IMPP(q.raw_value, q.params)
    }

    /// The decoded raw value.
    pub fn raw(&self) -> (r: &String)
        ensures
            r@ == self.abs().0,
    {
        &self.0
    }
}

#[derive(Debug)]
pub struct Key(pub String, pub Vec<Param>);

impl Key {
    pub open spec fn abs(&self) -> (Seq<char>, Seq<(Seq<char>, Seq<char>)>) {
        (self.0@, abs_params(self.1@))
    }

    /// The typed value of a generic property: its decoded value and its
    /// parameters, kept as stored.
    pub fn from_property(p: &Property) -> (r: Self)
        ensures
            r.abs() == prop_data(p.abs()),
    {
        let q = p.clone();
        Key(q.raw_value, q.params)
    }

    /// The decoded raw value.
    pub fn raw(&self) -> (r: &String)
        ensures
            r@ == self.abs().0,
    {
        &self.0
    }
}

#[derive(Debug)]
pub struct Lang(pub String, pub Vec<Param>);

impl Lang {
    pub open spec fn abs(&self) -> (Seq<char>, Seq<(Seq<char>, Seq<char>)>) {
        (self.0@, abs_params(self.1@))
    }

    /// The typed value of a generic property: its decoded value and its
    /// parameters, kept as stored.
    pub fn from_property(p: &Property) -> (r: Self)
        ensures
            r.abs() == prop_data(p.abs()),
    {
        let q = p.clone();
        Lang(q.raw_value, q.params)
    }

    /// The decoded raw value.
    pub fn raw(&self) -> (r: &String)
        ensures
            r@ == self.abs().0,
    {
        &self.0
    }
}

#[derive(Debug)]
pub struct Logo(pub String, pub Vec<Param>);

impl Logo {
    pub open spec fn abs(&self) -> (Seq<char>, Seq<(Seq<char>, Seq<char>)>) {
        (self.0@, abs_params(self.1@))
    }

    /// The typed value of a generic property: its decoded value and its
    /// parameters, kept as stored.
    pub fn from_property(p: &Property) -> (r: Self)
        ensures
            r.abs() == prop_data(p.abs()),
    {
        let q = p.clone();
        Logo(q.raw_value, q.params)
    }

    /// The decoded raw value.
    pub fn raw(&self) -> (r: &String)
        ensures
            r@ == self.abs().0,
    {
        &self.0
    }
}

#[derive(Debug)]
pub struct Member(pub String, pub Vec<Param>);

impl Member {
    pub open spec fn abs(&self) -> (Seq<char>, Seq<(Seq<char>, Seq<char>)>) {
        (self.0@, abs_params(self.1@))
    }

    /// The typed value of a generic property: its decoded value and its
    /// parameters, kept as stored.
    pub fn from_property(p: &Property) -> (r: Self)
        ensures
            r.abs() == prop_data(p.abs()),
    {
        let q = p.clone();
        Member(q.raw_value, q.params)
    }

    /// The decoded raw value.
    pub fn raw(&self) -> (r: &String)
        ensures
            r@ == self.abs().0,
    {
        &self.0
    }
}

#[derive(Debug)]
pub struct Name(pub String, pub Vec<Param>);

impl Name {
    pub open spec fn abs(&self) -> (Seq<char>, Seq<(Seq<char>, Seq<char>)>) {
        (self.0@, abs_params(self.1@))
    }

    /// The typed value of a generic property: its decoded value and its
    /// parameters, kept as stored.
    pub fn from_property(p: &Property) -> (r: Self)
        ensures
            r.abs() == prop_data(p.abs()),
    {
        let q = p.clone();
        Name(q.raw_value, q.params)
    }

    /// The decoded raw value.
    pub fn raw(&self) -> (r: &String)
        ensures
            r@ == self.abs().0,
    {
        &self.0
    }
}

#[derive(Debug)]
pub struct NickName(pub String, pub Vec<Param>);

impl NickName {
    pub open spec fn abs(&self) -> (Seq<char>, Seq<(Seq<char>, Seq<char>)>) {
        (self.0@, abs_params(self.1@))
    }

    /// The typed value of a generic property: its decoded value and its
    /// parameters, kept as stored.
    pub fn from_property(p: &Property) -> (r: Self)
        ensures
            r.abs() == prop_data(p.abs()),
    {
        let q = p.clone();
        NickName(q.raw_value, q.params)
    }

    /// The decoded raw value.
    pub fn raw(&self) -> (r: &String)
        ensures
            r@ == self.abs().0,
    {
        &self.0
    }
}

#[derive(Debug)]
pub struct Note(pub String, pub Vec<Param>);

impl Note {
    pub open spec fn abs(&self) -> (Seq<char>, Seq<(Seq<char>, Seq<char>)>) {
        (self.0@, abs_params(self.1@))
    }

    /// The typed value of a generic property: its decoded value and its
    /// parameters, kept as stored.
    pub fn from_property(p: &Property) -> (r: Self)
        ensures
            r.abs() == prop_data(p.abs()),
    {
        let q = p.clone();
        Note(q.raw_value, q.params)
    }

    /// The decoded raw value.
    pub fn raw(&self) -> (r: &String)
        ensures
            r@ == self.abs().0,
    {
        &self.0
    }
}

#[derive(Debug)]
pub struct Organization(pub String, pub Vec<Param>);

impl Organization {
    pub open spec fn abs(&self) -> (Seq<char>, Seq<(Seq<char>, Seq<char>)>) {
        (self.0@, abs_params(self.1@))
    }

    /// The typed value of a generic property: its decoded value and its
    /// parameters, kept as stored.
    pub fn from_property(p: &Property) -> (r: Self)
        ensures
            r.abs() == prop_data(p.abs()),
    {
        let q = p.clone();
        Organization(q.raw_value, q.params)
    }

    /// The decoded raw value.
    pub fn raw(&self) -> (r: &String)
        ensures
            r@ == self.abs().0,
    {
        &self.0
    }
}

#[derive(Debug)]
pub struct PhoneNumber(pub String, pub Vec<Param>);

impl PhoneNumber {
    pub open spec fn abs(&self) -> (Seq<char>, Seq<(Seq<char>, Seq<char>)>) {
        (self.0@, abs_params(self.1@))
    }

    /// The typed value of a generic property: its decoded value and its
    /// parameters, kept as stored.
    pub fn from_property(p: &Property) -> (r: Self)
        ensures
            r.abs() == prop_data(p.abs()),
    {
        let q = p.clone();
        PhoneNumber(q.raw_value, q.params)
    }

    /// The decoded raw value.
    pub fn raw(&self) -> (r: &String)
        ensures
            r@ == self.abs().0,
    {
        &self.0
    }
}

#[derive(Debug)]
pub struct Photo(pub String, pub Vec<Param>);

impl Photo {
    pub open spec fn abs(&self) -> (Seq<char>, Seq<(Seq<char>, Seq<char>)>) {
        (self.0@, abs_params(self.1@))
    }

    /// The typed value of a generic property: its decoded value and its
    /// parameters, kept as stored.
    pub fn from_property(p: &Property) -> (r: Self)
        ensures
            r.abs() == prop_data(p.abs()),
    {
        let q = p.clone();
        Photo(q.raw_value, q.params)
    }

    /// The decoded raw value.
    pub fn raw(&self) -> (r: &String)
        ensures
            r@ == self.abs().0,
    {
        &self.0
    }
}

#[derive(Debug)]
pub struct Proid(pub String, pub Vec<Param>);

impl Proid {
    pub open spec fn abs(&self) -> (Seq<char>, Seq<(Seq<char>, Seq<char>)>) {
        (self.0@, abs_params(self.1@))
    }

    /// The typed value of a generic property: its decoded value and its
    /// parameters, kept as stored.
    pub fn from_property(p: &Property) -> (r: Self)
        ensures
            r.abs() == prop_data(p.abs()),
    {
        let q = p.clone();
        Proid(q.raw_value, q.params)
    }

    /// The decoded raw value.
    pub fn raw(&self) -> (r: &String)
        ensures
            r@ == self.abs().0,
    {
        &self.0
    }
}

#[derive(Debug)]
pub struct Related(pub String, pub Vec<Param>);

impl Related {
    pub open spec fn abs(&self) -> (Seq<char>, Seq<(Seq<char>, Seq<char>)>) {
        (self.0@, abs_params(self.1@))
    }

    /// The typed value of a generic property: its decoded value and its
    /// parameters, kept as stored.
    pub fn from_property(p: &Property) -> (r: Self)
        ensures
            r.abs() == prop_data(p.abs()),
    {
        let q = p.clone();
        Related(q.raw_value, q.params)
    }

    /// The decoded raw value.
    pub fn raw(&self) -> (r: &String)
        ensures
            r@ == self.abs().0,
    {
        &self.0
    }
}

#[derive(Debug)]
pub struct Rev(pub String, pub Vec<Param>);

impl Rev {
    pub open spec fn abs(&self) -> (Seq<char>, Seq<(Seq<char>, Seq<char>)>) {
        (self.0@, abs_params(self.1@))
    }

    /// The typed value of a generic property: its decoded value and its
    /// parameters, kept as stored.
    pub fn from_property(p: &Property) -> (r: Self)
        ensures
            r.abs() == prop_data(p.abs()),
    {
        let q = p.clone();
        Rev(q.raw_value, q.params)
    }

    /// The decoded raw value.
    pub fn raw(&self) -> (r: &String)
        ensures
            r@ == self.abs().0,
    {
        &self.0
    }
}

#[derive(Debug)]
pub struct Sound(pub String, pub Vec<Param>);

impl Sound {
    pub open spec fn abs(&self) -> (Seq<char>, Seq<(Seq<char>, Seq<char>)>) {
        (self.0@, abs_params(self.1@))
    }

    /// The typed value of a generic property: its decoded value and its
    /// parameters, kept as stored.
    pub fn from_property(p: &Property) -> (r: Self)
        ensures
            r.abs() == prop_data(p.abs()),
    {
        let q = p.clone();
        Sound(q.raw_value, q.params)
    }

    /// The decoded raw value.
    pub fn raw(&self) -> (r: &String)
        ensures
            r@ == self.abs().0,
    {
        &self.0
    }
}

#[derive(Debug)]
pub struct Tel(pub String, pub Vec<Param>);

impl Tel {
    pub open spec fn abs(&self) -> (Seq<char>, Seq<(Seq<char>, Seq<char>)>) {
        (self.0@, abs_params(self.1@))
    }

    /// The typed value of a generic property: its decoded value and its
    /// parameters, kept as stored.
    pub fn from_property(p: &Property) -> (r: Self)
        ensures
            r.abs() == prop_data(p.abs()),
    {
        let q = p.clone();
        Tel(q.raw_value, q.params)
    }

    /// The decoded raw value.
    pub fn raw(&self) -> (r: &String)
        ensures
            r@ == self.abs().0,
    {
        &self.0
    }
}

#[derive(Debug)]
pub struct Title(pub String, pub Vec<Param>);

impl Title {
    pub open spec fn abs(&self) -> (Seq<char>, Seq<(Seq<char>, Seq<char>)>) {
        (self.0@, abs_params(self.1@))
    }

    /// The typed value of a generic property: its decoded value and its
    /// parameters, kept as stored.
    pub fn from_property(p: &Property) -> (r: Self)
        ensures
            r.abs() == prop_data(p.abs()),
    {
        let q = p.clone();
        Title(q.raw_value, q.params)
    }

    /// The decoded raw value.
    pub fn raw(&self) -> (r: &String)
        ensures
            r@ == self.abs().0,
    {
        &self.0
    }
}

#[derive(Debug)]
pub struct Tz(pub String, pub Vec<Param>);

impl Tz {
    pub open spec fn abs(&self) -> (Seq<char>, Seq<(Seq<char>, Seq<char>)>) {
        (self.0@, abs_params(self.1@))
    }

    /// The typed value of a generic property: its decoded value and its
    /// parameters, kept as stored.
    pub fn from_property(p: &Property) -> (r: Self)
        ensures
            r.abs() == prop_data(p.abs()),
    {
        let q = p.clone();
        Tz(q.raw_value, q.params)
    }

    /// The decoded raw value.
    pub fn raw(&self) -> (r: &String)
        ensures
            r@ == self.abs().0,
    {
        &self.0
    }
}

#[derive(Debug)]
pub struct Uid(pub String, pub Vec<Param>);

impl Uid {
    pub open spec fn abs(&self) -> (Seq<char>, Seq<(Seq<char>, Seq<char>)>) {
        (self.0@, abs_params(self.1@))
    }

    /// The typed value of a generic property: its decoded value and its
    /// parameters, kept as stored.
    pub fn from_property(p: &Property) -> (r: Self)
        ensures
            r.abs() == prop_data(p.abs()),
    {
        let q = p.clone();
        Uid(q.raw_value, q.params)
    }

    /// The decoded raw value.
    pub fn raw(&self) -> (r: &String)
        ensures
            r@ == self.abs().0,
    {
        &self.0
    }
}

#[derive(Debug)]
pub struct Url(pub String, pub Vec<Param>);

impl Url {
    pub open spec fn abs(&self) -> (Seq<char>, Seq<(Seq<char>, Seq<char>)>) {
        (self.0@, abs_params(self.1@))
    }

    /// The typed value of a generic property: its decoded value and its
    /// parameters, kept as stored.
    pub fn from_property(p: &Property) -> (r: Self)
        ensures
            r.abs() == prop_data(p.abs()),
    {
        let q = p.clone();
        Url(q.raw_value, q.params)
    }

    /// The decoded raw value.
    pub fn raw(&self) -> (r: &String)
        ensures
            r@ == self.abs().0,
    {
        &self.0
    }
}

impl Vcard {
    /// Parses text to a vCard: the text must parse to a single root
    /// component named exactly `VCARD`; any other root name is rejected as
    /// not a vCard, and a structural error passes through unchanged.
    pub fn build(s: &str) -> (r: Result<Vcard, VObjectError>)
        ensures
            match r {
                Ok(v) => parse_spec(s@) == Ok::<AbsComp, AbsError>(v.0.abs()) && v.0.abs().name
                    == "VCARD"@,
                Err(e) => match parse_spec(s@) {
                    Ok(c) => c.name != "VCARD"@ && e.abs() == AbsError::NotAVCard(s@),
                    Err(pe) => e.abs() == pe,
                },
            },
    {
        match parse_component(s) {
            Ok(c) => {
                if eq_str(c.name.as_str(), "VCARD") {
                    Ok(Vcard(c))
                } else {
                    let text = chars_to_string(&str_chars(s));
                    Err(VObjectError::NotAVCard(text))
                }
            },
            Err(e) => Err(e),
        }
    }

    /// The `N` property as a structured name; its absence is an error of its
    /// own.
    pub fn name(&self) -> (r: Result<Name, VObjectError>)
        ensures
            match r {
                Ok(n) => props_named(self.0.abs().props, "N"@).len() > 0 && n.abs() == prop_data(
                    props_named(self.0.abs().props, "N"@)[0],
                ),
                Err(e) => props_named(self.0.abs().props, "N"@).len() == 0 && e.abs()
                    == AbsError::NameNotFound,
            },
    {
        match self.0.get_only("N") {
            Some(p) => Ok(Name::from_property(p)),
            None => Err(VObjectError::NameNotFound),
        }
    }

    /// The `VERSION` property value; its absence is an error of its own.
    pub fn version(&self) -> (r: Result<Version, VObjectError>)
        ensures
            match r {
                Ok(v) => props_named(self.0.abs().props, "VERSION"@).len() > 0 && v@ == props_named(
                    self.0.abs().props,
                    "VERSION"@,
                )[0].value,
                Err(e) => props_named(self.0.abs().props, "VERSION"@).len() == 0 && e.abs()
                    == AbsError::VersionNotFound,
            },
    {
        match self.0.get_only("VERSION") {
            Some(p) => Ok(p.raw_value.clone()),
            None => Err(VObjectError::VersionNotFound),
        }
    }

    /// All `ADR` properties, in stored order.
    pub fn adr(&self) -> (r: Vec<Adr>)
        ensures
            r@.len() == props_named(self.0.abs().props, "ADR"@).len(),
            forall|i: int|
                0 <= i < r@.len() ==> (#[trigger] r@[i]).abs() == prop_data(
                    props_named(self.0.abs().props, "ADR"@)[i],
                ),
    {
        let ps = self.0.get_all("ADR");
        let mut r: Vec<Adr> = Vec::new();
        let mut i: usize = 0;
        while i < ps.len()
            invariant
                i <= ps@.len(),
                abs_props(ps@) == props_named(self.0.abs().props, "ADR"@),
                r@.len() == i,
                forall|j: int|
                    0 <= j < i ==> (#[trigger] r@[j]).abs() == prop_data(
                        props_named(self.0.abs().props, "ADR"@)[j],
                    ),
            decreases ps@.len() - i,
        {
            proof {
                assert(abs_props(ps@)[i as int] == ps@[i as int].abs());
            }
            let x = Adr::from_property(&ps[i]);
            r.push(x);
            i = i + 1;
        }
        proof {
            assert(abs_props(ps@).len() == ps@.len());
        }
        r
    }

    /// All `CATEGORIES` properties, in stored order.
    pub fn categories(&self) -> (r: Vec<Category>)
        ensures
            r@.len() == props_named(self.0.abs().props, "CATEGORIES"@).len(),
            forall|i: int|
                0 <= i < r@.len() ==> (#[trigger] r@[i]).abs() == prop_data(
                    props_named(self.0.abs().props, "CATEGORIES"@)[i],
                ),
    {
        let ps = self.0.get_all("CATEGORIES");
        let mut r: Vec<Category> = Vec::new();
        let mut i: usize = 0;
        while i < ps.len()
            invariant
                i <= ps@.len(),
                abs_props(ps@) == props_named(self.0.abs().props, "CATEGORIES"@),
                r@.len() == i,
                forall|j: int|
                    0 <= j < i ==> (#[trigger] r@[j]).abs() == prop_data(
                        props_named(self.0.abs().props, "CATEGORIES"@)[j],
                    ),
            decreases ps@.len() - i,
        {
            proof {
                assert(abs_props(ps@)[i as int] == ps@[i as int].abs());
            }
            let x = Category::from_property(&ps[i]);
            r.push(x);
            i = i + 1;
        }
        proof {
            assert(abs_props(ps@).len() == ps@.len());
        }
        r
    }

    /// All `EMAIL` properties, in stored order.
    pub fn email(&self) -> (r: Vec<Email>)
        ensures
            r@.len() == props_named(self.0.abs().props, "EMAIL"@).len(),
            forall|i: int|
                0 <= i < r@.len() ==> (#[trigger] r@[i]).abs() == prop_data(
                    props_named(self.0.abs().props, "EMAIL"@)[i],
                ),
    {
        let ps = self.0.get_all("EMAIL");
        let mut r: Vec<Email> = Vec::new();
        let mut i: usize = 0;
        while i < ps.len()
            invariant
                i <= ps@.len(),
                abs_props(ps@) == props_named(self.0.abs().props, "EMAIL"@),
                r@.len() == i,
                forall|j: int|
                    0 <= j < i ==> (#[trigger] r@[j]).abs() == prop_data(
                        props_named(self.0.abs().props, "EMAIL"@)[j],
                    ),
            decreases ps@.len() - i,
        {
            proof {
                assert(abs_props(ps@)[i as int] == ps@[i as int].abs());
            }
            let x = Email::from_property(&ps[i]);
            r.push(x);
            i = i + 1;
        }
        proof {
            assert(abs_props(ps@).len() == ps@.len());
        }
        r
    }

    /// All `FN` properties, in stored order.
    pub fn fullname(&self) -> (r: Vec<FullName>)
        ensures
            r@.len() == props_named(self.0.abs().props, "FN"@).len(),
            forall|i: int|
                0 <= i < r@.len() ==> (#[trigger] r@[i]).abs() == prop_data(
                    props_named(self.0.abs().props, "FN"@)[i],
                ),
    {
        let ps = self.0.get_all("FN");
        let mut r: Vec<FullName> = Vec::new();
        let mut i: usize = 0;
        while i < ps.len()
            invariant
                i <= ps@.len(),
                abs_props(ps@) == props_named(self.0.abs().props, "FN"@),
                r@.len() == i,
                forall|j: int|
                    0 <= j < i ==> (#[trigger] r@[j]).abs() == prop_data(
                        props_named(self.0.abs().props, "FN"@)[j],
                    ),
            decreases ps@.len() - i,
        {
            proof {
                assert(abs_props(ps@)[i as int] == ps@[i as int].abs());
            }
            let x = FullName::from_property(&ps[i]);
            r.push(x);
            i = i + 1;
        }
        proof {
            assert(abs_props(ps@).len() == ps@.len());
        }
        r
    }

    /// All `GEO` properties, in stored order.
    pub fn geo(&self) -> (r: Vec<Geo>)
        ensures
            r@.len() == props_named(self.0.abs().props, "GEO"@).len(),
            forall|i: int|
                0 <= i < r@.len() ==> (#[trigger] r@[i]).abs() == prop_data(
                    props_named(self.0.abs().props, "GEO"@)[i],
                ),
    {
        let ps = self.0.get_all("GEO");
        let mut r: Vec<Geo> = Vec::new();
        let mut i: usize = 0;
        while i < ps.len()
            invariant
                i <= ps@.len(),
                abs_props(ps@) == props_named(self.0.abs().props, "GEO"@),
                r@.len() == i,
                forall|j: int|
                    0 <= j < i ==> (#[trigger] r@[j]).abs() == prop_data(
                        props_named(self.0.abs().props, "GEO"@)[j],
                    ),
            decreases ps@.len() - i,
        {
            proof {
                assert(abs_props(ps@)[i as int] == ps@[i as int].abs());
            }
            let x = Geo::from_property(&ps[i]);
            r.push(x);
            i = i + 1;
        }
        proof {
            assert(abs_props(ps@).len() == ps@.len());
        }
        r
    }

    /// All `IMPP` properties, in stored order.
    pub fn impp(&self) -> (r: Vec<IMPP>)
        ensures
            r@.len() == props_named(self.0.abs().props, "IMPP"@).len(),
            forall|i: int|
                0 <= i < r@.len() ==> (#[trigger] r@[i]).abs() == prop_data(
                    props_named(self.0.abs().props, "IMPP"@)[i],
                ),
    {
        let ps = self.0.get_all("IMPP");
        let mut r: Vec<IMPP> = Vec::new();
        let mut i: usize = 0;
        while i < ps.len()
            invariant
                i <= ps@.len(),
                abs_props(ps@) == props_named(self.0.abs().props, "IMPP"@),
                r@.len() == i,
                forall|j: int|
                    0 <= j < i ==> (#[trigger] r@[j]).abs() == prop_data(
                        props_named(self.0.abs().props, "IMPP"@)[j],
                    ),
            decreases ps@.len() - i,
        {
            proof {
                assert(abs_props(ps@)[i as int] == ps@[i as int].abs());
            }
            let x = IMPP::from_property(&ps[i]);
            r.push(x);
            i = i + 1;
        }
        proof {
            assert(abs_props(ps@).len() == ps@.len());
        }
        r
    }

    /// All `KEY` properties, in stored order.
    pub fn key(&self) -> (r: Vec<Key>)
        ensures
            r@.len() == props_named(self.0.abs().props, "KEY"@).len(),
            forall|i: int|
                0 <= i < r@.len() ==> (#[trigger] r@[i]).abs() == prop_data(
                    props_named(self.0.abs().props, "KEY"@)[i],
                ),
    {
        let ps = self.0.get_all("KEY");
        let mut r: Vec<Key> = Vec::new();
        let mut i: usize = 0;
        while i < ps.len()
            invariant
                i <= ps@.len(),
                abs_props(ps@) == props_named(self.0.abs().props, "KEY"@),
                r@.len() == i,
                forall|j: int|
                    0 <= j < i ==> (#[trigger] r@[j]).abs() == prop_data(
                        props_named(self.0.abs().props, "KEY"@)[j],
                    ),
            decreases ps@.len() - i,
        {
            proof {
                assert(abs_props(ps@)[i as int] == ps@[i as int].abs());
            }
            let x = Key::from_property(&ps[i]);
            r.push(x);
            i = i + 1;
        }
        proof {
            assert(abs_props(ps@).len() == ps@.len());
        }
        r
    }

    /// All `LANG` properties, in stored order.
    pub fn lang(&self) -> (r: Vec<Lang>)
        ensures
            r@.len() == props_named(self.0.abs().props, "LANG"@).len(),
            forall|i: int|
                0 <= i < r@.len() ==> (#[trigger] r@[i]).abs() == prop_data(
                    props_named(self.0.abs().props, "LANG"@)[i],
                ),
    {
        let ps = self.0.get_all("LANG");
        let mut r: Vec<Lang> = Vec::new();
        let mut i: usize = 0;
        while i < ps.len()
            invariant
                i <= ps@.len(),
                abs_props(ps@) == props_named(self.0.abs().props, "LANG"@),
                r@.len() == i,
                forall|j: int|
                    0 <= j < i ==> (#[trigger] r@[j]).abs() == prop_data(
                        props_named(self.0.abs().props, "LANG"@)[j],
                    ),
            decreases ps@.len() - i,
        {
            proof {
                assert(abs_props(ps@)[i as int] == ps@[i as int].abs());
            }
            let x = Lang::from_property(&ps[i]);
            r.push(x);
            i = i + 1;
        }
        proof {
            assert(abs_props(ps@).len() == ps@.len());
        }
        r
    }

    /// All `LOGO` properties, in stored order.
    pub fn logo(&self) -> (r: Vec<Logo>)
        ensures
            r@.len() == props_named(self.0.abs().props, "LOGO"@).len(),
            forall|i: int|
                0 <= i < r@.len() ==> (#[trigger] r@[i]).abs() == prop_data(
                    props_named(self.0.abs().props, "LOGO"@)[i],
                ),
    {
        let ps = self.0.get_all("LOGO");
        let mut r: Vec<Logo> = Vec::new();
        let mut i: usize = 0;
        while i < ps.len()
            invariant
                i <= ps@.len(),
                abs_props(ps@) == props_named(self.0.abs().props, "LOGO"@),
                r@.len() == i,
                forall|j: int|
                    0 <= j < i ==> (#[trigger] r@[j]).abs() == prop_data(
                        props_named(self.0.abs().props, "LOGO"@)[j],
                    ),
            decreases ps@.len() - i,
        {
            proof {
                assert(abs_props(ps@)[i as int] == ps@[i as int].abs());
            }
            let x = Logo::from_property(&ps[i]);
            r.push(x);
            i = i + 1;
        }
        proof {
            assert(abs_props(ps@).len() == ps@.len());
        }
        r
    }

    /// All `MEMBER` properties, in stored order.
    pub fn member(&self) -> (r: Vec<Member>)
        ensures
            r@.len() == props_named(self.0.abs().props, "MEMBER"@).len(),
            forall|i: int|
                0 <= i < r@.len() ==> (#[trigger] r@[i]).abs() == prop_data(
                    props_named(self.0.abs().props, "MEMBER"@)[i],
                ),
    {
        let ps = self.0.get_all("MEMBER");
        let mut r: Vec<Member> = Vec::new();
        let mut i: usize = 0;
        while i < ps.len()
            invariant
                i <= ps@.len(),
                abs_props(ps@) == props_named(self.0.abs().props, "MEMBER"@),
                r@.len() == i,
                forall|j: int|
                    0 <= j < i ==> (#[trigger] r@[j]).abs() == prop_data(
                        props_named(self.0.abs().props, "MEMBER"@)[j],
                    ),
            decreases ps@.len() - i,
        {
            proof {
                assert(abs_props(ps@)[i as int] == ps@[i as int].abs());
            }
            let x = Member::from_property(&ps[i]);
            r.push(x);
            i = i + 1;
        }
        proof {
            assert(abs_props(ps@).len() == ps@.len());
        }
        r
    }

    /// All `NICKNAME` properties, in stored order.
    pub fn nickname(&self) -> (r: Vec<NickName>)
        ensures
            r@.len() == props_named(self.0.abs().props, "NICKNAME"@).len(),
            forall|i: int|
                0 <= i < r@.len() ==> (#[trigger] r@[i]).abs() == prop_data(
                    props_named(self.0.abs().props, "NICKNAME"@)[i],
                ),
    {
        let ps = self.0.get_all("NICKNAME");
        let mut r: Vec<NickName> = Vec::new();
        let mut i: usize = 0;
        while i < ps.len()
            invariant
                i <= ps@.len(),
                abs_props(ps@) == props_named(self.0.abs().props, "NICKNAME"@),
                r@.len() == i,
                forall|j: int|
                    0 <= j < i ==> (#[trigger] r@[j]).abs() == prop_data(
                        props_named(self.0.abs().props, "NICKNAME"@)[j],
                    ),
            decreases ps@.len() - i,
        {
            proof {
                assert(abs_props(ps@)[i as int] == ps@[i as int].abs());
            }
            let x = NickName::from_property(&ps[i]);
            r.push(x);
            i = i + 1;
        }
        proof {
            assert(abs_props(ps@).len() == ps@.len());
        }
        r
    }

    /// All `NOTE` properties, in stored order.
    pub fn note(&self) -> (r: Vec<Note>)
        ensures
            r@.len() == props_named(self.0.abs().props, "NOTE"@).len(),
            forall|i: int|
                0 <= i < r@.len() ==> (#[trigger] r@[i]).abs() == prop_data(
                    props_named(self.0.abs().props, "NOTE"@)[i],
                ),
    {
        let ps = self.0.get_all("NOTE");
        let mut r: Vec<Note> = Vec::new();
        let mut i: usize = 0;
        while i < ps.len()
            invariant
                i <= ps@.len(),
                abs_props(ps@) == props_named(self.0.abs().props, "NOTE"@),
                r@.len() == i,
                forall|j: int|
                    0 <= j < i ==> (#[trigger] r@[j]).abs() == prop_data(
                        props_named(self.0.abs().props, "NOTE"@)[j],
                    ),
            decreases ps@.len() - i,
        {
            proof {
                assert(abs_props(ps@)[i as int] == ps@[i as int].abs());
            }
            let x = Note::from_property(&ps[i]);
            r.push(x);
            i = i + 1;
        }
        proof {
            assert(abs_props(ps@).len() == ps@.len());
        }
        r
    }

    /// All `ORG` properties, in stored order.
    pub fn org(&self) -> (r: Vec<Organization>)
        ensures
            r@.len() == props_named(self.0.abs().props, "ORG"@).len(),
            forall|i: int|
                0 <= i < r@.len() ==> (#[trigger] r@[i]).abs() == prop_data(
                    props_named(self.0.abs().props, "ORG"@)[i],
                ),
    {
        let ps = self.0.get_all("ORG");
        let mut r: Vec<Organization> = Vec::new();
        let mut i: usize = 0;
        while i < ps.len()
            invariant
                i <= ps@.len(),
                abs_props(ps@) == props_named(self.0.abs().props, "ORG"@),
                r@.len() == i,
                forall|j: int|
                    0 <= j < i ==> (#[trigger] r@[j]).abs() == prop_data(
                        props_named(self.0.abs().props, "ORG"@)[j],
                    ),
            decreases ps@.len() - i,
        {
            proof {
                assert(abs_props(ps@)[i as int] == ps@[i as int].abs());
            }
            let x = Organization::from_property(&ps[i]);
            r.push(x);
            i = i + 1;
        }
        proof {
            assert(abs_props(ps@).len() == ps@.len());
        }
        r
    }

    /// All `PHOTO` properties, in stored order.
    pub fn photo(&self) -> (r: Vec<Photo>)
        ensures
            r@.len() == props_named(self.0.abs().props, "PHOTO"@).len(),
            forall|i: int|
                0 <= i < r@.len() ==> (#[trigger] r@[i]).abs() == prop_data(
                    props_named(self.0.abs().props, "PHOTO"@)[i],
                ),
    {
        let ps = self.0.get_all("PHOTO");
        let mut r: Vec<Photo> = Vec::new();
        let mut i: usize = 0;
        while i < ps.len()
            invariant
                i <= ps@.len(),
                abs_props(ps@) == props_named(self.0.abs().props, "PHOTO"@),
                r@.len() == i,
                forall|j: int|
                    0 <= j < i ==> (#[trigger] r@[j]).abs() == prop_data(
                        props_named(self.0.abs().props, "PHOTO"@)[j],
                    ),
            decreases ps@.len() - i,
        {
            proof {
                assert(abs_props(ps@)[i as int] == ps@[i as int].abs());
            }
            let x = Photo::from_property(&ps[i]);
            r.push(x);
            i = i + 1;
        }
        proof {
            assert(abs_props(ps@).len() == ps@.len());
        }
        r
    }

    /// All `RELATED` properties, in stored order.
    pub fn related(&self) -> (r: Vec<Related>)
        ensures
            r@.len() == props_named(self.0.abs().props, "RELATED"@).len(),
            forall|i: int|
                0 <= i < r@.len() ==> (#[trigger] r@[i]).abs() == prop_data(
                    props_named(self.0.abs().props, "RELATED"@)[i],
                ),
    {
        let ps = self.0.get_all("RELATED");
        let mut r: Vec<Related> = Vec::new();
        let mut i: usize = 0;
        while i < ps.len()
            invariant
                i <= ps@.len(),
                abs_props(ps@) == props_named(self.0.abs().props, "RELATED"@),
                r@.len() == i,
                forall|j: int|
                    0 <= j < i ==> (#[trigger] r@[j]).abs() == prop_data(
                        props_named(self.0.abs().props, "RELATED"@)[j],
                    ),
            decreases ps@.len() - i,
        {
            proof {
                assert(abs_props(ps@)[i as int] == ps@[i as int].abs());
            }
            let x = Related::from_property(&ps[i]);
            r.push(x);
            i = i + 1;
        }
        proof {
            assert(abs_props(ps@).len() == ps@.len());
        }
        r
    }

    /// All `ROLE` properties, in stored order.
    pub fn role(&self) -> (r: Vec<Title>)
        ensures
            r@.len() == props_named(self.0.abs().props, "ROLE"@).len(),
            forall|i: int|
                0 <= i < r@.len() ==> (#[trigger] r@[i]).abs() == prop_data(
                    props_named(self.0.abs().props, "ROLE"@)[i],
                ),
    {
        let ps = self.0.get_all("ROLE");
        let mut r: Vec<Title> = Vec::new();
        let mut i: usize = 0;
        while i < ps.len()
            invariant
                i <= ps@.len(),
                abs_props(ps@) == props_named(self.0.abs().props, "ROLE"@),
                r@.len() == i,
                forall|j: int|
                    0 <= j < i ==> (#[trigger] r@[j]).abs() == prop_data(
                        props_named(self.0.abs().props, "ROLE"@)[j],
                    ),
            decreases ps@.len() - i,
        {
            proof {
                assert(abs_props(ps@)[i as int] == ps@[i as int].abs());
            }
            let x = Title::from_property(&ps[i]);
            r.push(x);
            i = i + 1;
        }
        proof {
            assert(abs_props(ps@).len() == ps@.len());
        }
        r
    }

    /// All `SOUND` properties, in stored order.
    pub fn sound(&self) -> (r: Vec<Sound>)
        ensures
            r@.len() == props_named(self.0.abs().props, "SOUND"@).len(),
            forall|i: int|
                0 <= i < r@.len() ==> (#[trigger] r@[i]).abs() == prop_data(
                    props_named(self.0.abs().props, "SOUND"@)[i],
                ),
    {
        let ps = self.0.get_all("SOUND");
        let mut r: Vec<Sound> = Vec::new();
        let mut i: usize = 0;
        while i < ps.len()
            invariant
                i <= ps@.len(),
                abs_props(ps@) == props_named(self.0.abs().props, "SOUND"@),
                r@.len() == i,
                forall|j: int|
                    0 <= j < i ==> (#[trigger] r@[j]).abs() == prop_data(
                        props_named(self.0.abs().props, "SOUND"@)[j],
                    ),
            decreases ps@.len() - i,
        {
            proof {
                assert(abs_props(ps@)[i as int] == ps@[i as int].abs());
            }
            let x = Sound::from_property(&ps[i]);
            r.push(x);
            i = i + 1;
        }
        proof {
            assert(abs_props(ps@).len() == ps@.len());
        }
        r
    }

    /// All `TEL` properties, in stored order.
    pub fn tel(&self) -> (r: Vec<Tel>)
        ensures
            r@.len() == props_named(self.0.abs().props, "TEL"@).len(),
            forall|i: int|
                0 <= i < r@.len() ==> (#[trigger] r@[i]).abs() == prop_data(
                    props_named(self.0.abs().props, "TEL"@)[i],
                ),
    {
        let ps = self.0.get_all("TEL");
        let mut r: Vec<Tel> = Vec::new();
        let mut i: usize = 0;
        while i < ps.len()
            invariant
                i <= ps@.len(),
                abs_props(ps@) == props_named(self.0.abs().props, "TEL"@),
                r@.len() == i,
                forall|j: int|
                    0 <= j < i ==> (#[trigger] r@[j]).abs() == prop_data(
                        props_named(self.0.abs().props, "TEL"@)[j],
                    ),
            decreases ps@.len() - i,
        {
            proof {
                assert(abs_props(ps@)[i as int] == ps@[i as int].abs());
            }
            let x = Tel::from_property(&ps[i]);
            r.push(x);
            i = i + 1;
        }
        proof {
            assert(abs_props(ps@).len() == ps@.len());
        }
        r
    }

    /// All `TITLE` properties, in stored order.
    pub fn title(&self) -> (r: Vec<Title>)
        ensures
            r@.len() == props_named(self.0.abs().props, "TITLE"@).len(),
            forall|i: int|
                0 <= i < r@.len() ==> (#[trigger] r@[i]).abs() == prop_data(
                    props_named(self.0.abs().props, "TITLE"@)[i],
                ),
    {
        let ps = self.0.get_all("TITLE");
        let mut r: Vec<Title> = Vec::new();
        let mut i: usize = 0;
        while i < ps.len()
            invariant
                i <= ps@.len(),
                abs_props(ps@) == props_named(self.0.abs().props, "TITLE"@),
                r@.len() == i,
                forall|j: int|
                    0 <= j < i ==> (#[trigger] r@[j]).abs() == prop_data(
                        props_named(self.0.abs().props, "TITLE"@)[j],
                    ),
            decreases ps@.len() - i,
        {
            proof {
                assert(abs_props(ps@)[i as int] == ps@[i as int].abs());
            }
            let x = Title::from_property(&ps[i]);
            r.push(x);
            i = i + 1;
        }
        proof {
            assert(abs_props(ps@).len() == ps@.len());
        }
        r
    }

    /// All `TZ` properties, in stored order.
    pub fn tz(&self) -> (r: Vec<Tz>)
        ensures
            r@.len() == props_named(self.0.abs().props, "TZ"@).len(),
            forall|i: int|
                0 <= i < r@.len() ==> (#[trigger] r@[i]).abs() == prop_data(
                    props_named(self.0.abs().props, "TZ"@)[i],
                ),
    {
        let ps = self.0.get_all("TZ");
        let mut r: Vec<Tz> = Vec::new();
        let mut i: usize = 0;
        while i < ps.len()
            invariant
                i <= ps@.len(),
                abs_props(ps@) == props_named(self.0.abs().props, "TZ"@),
                r@.len() == i,
                forall|j: int|
                    0 <= j < i ==> (#[trigger] r@[j]).abs() == prop_data(
                        props_named(self.0.abs().props, "TZ"@)[j],
                    ),
            decreases ps@.len() - i,
        {
            proof {
                assert(abs_props(ps@)[i as int] == ps@[i as int].abs());
            }
            let x = Tz::from_property(&ps[i]);
            r.push(x);
            i = i + 1;
        }
        proof {
            assert(abs_props(ps@).len() == ps@.len());
        }
        r
    }

    /// All `URL` properties, in stored order.
    pub fn url(&self) -> (r: Vec<Url>)
        ensures
            r@.len() == props_named(self.0.abs().props, "URL"@).len(),
            forall|i: int|
                0 <= i < r@.len() ==> (#[trigger] r@[i]).abs() == prop_data(
                    props_named(self.0.abs().props, "URL"@)[i],
                ),
    {
        let ps = self.0.get_all("URL");
        let mut r: Vec<Url> = Vec::new();
        let mut i: usize = 0;
        while i < ps.len()
            invariant
                i <= ps@.len(),
                abs_props(ps@) == props_named(self.0.abs().props, "URL"@),
                r@.len() == i,
                forall|j: int|
                    0 <= j < i ==> (#[trigger] r@[j]).abs() == prop_data(
                        props_named(self.0.abs().props, "URL"@)[j],
                    ),
            decreases ps@.len() - i,
        {
            proof {
                assert(abs_props(ps@)[i as int] == ps@[i as int].abs());
            }
            let x = Url::from_property(&ps[i]);
            r.push(x);
            i = i + 1;
        }
        proof {
            assert(abs_props(ps@).len() == ps@.len());
        }
        r
    }

    /// The first stored `ANNIVERSARY` property, or nothing when absent.
    pub fn anniversary(&self) -> (r: Option<Anniversary>)
        ensures
            match r {
                Some(x) => props_named(self.0.abs().props, "ANNIVERSARY"@).len() > 0 && x.abs()
                    == prop_data(props_named(self.0.abs().props, "ANNIVERSARY"@)[0]),
                None => props_named(self.0.abs().props, "ANNIVERSARY"@).len() == 0,
            },
    {
        match self.0.get_only("ANNIVERSARY") {
            Some(p) => Some(Anniversary::from_property(p)),
            None => None,
        }
    }

    /// The first stored `BDAY` property, or nothing when absent.
    pub fn bday(&self) -> (r: Option<BDay>)
        ensures
            match r {
                Some(x) => props_named(self.0.abs().props, "BDAY"@).len() > 0 && x.abs()
                    == prop_data(props_named(self.0.abs().props, "BDAY"@)[0]),
                None => props_named(self.0.abs().props, "BDAY"@).len() == 0,
            },
    {
        match self.0.get_only("BDAY") {
            Some(p) => Some(BDay::from_property(p)),
            None => None,
        }
    }

    /// The first stored `CLIENTPIDMAP` property, or nothing when absent.
    pub fn clientpidmap(&self) -> (r: Option<ClientPidMap>)
        ensures
            match r {
                Some(x) => props_named(self.0.abs().props, "CLIENTPIDMAP"@).len() > 0 && x.abs()
                    == prop_data(props_named(self.0.abs().props, "CLIENTPIDMAP"@)[0]),
                None => props_named(self.0.abs().props, "CLIENTPIDMAP"@).len() == 0,
            },
    {
        match self.0.get_only("CLIENTPIDMAP") {
            Some(p) => Some(ClientPidMap::from_property(p)),
            None => None,
        }
    }

    /// The first stored `GENDER` property, or nothing when absent.
    pub fn gender(&self) -> (r: Option<Gender>)
        ensures
            match r {
                Some(x) => props_named(self.0.abs().props, "GENDER"@).len() > 0 && x.abs()
                    == prop_data(props_named(self.0.abs().props, "GENDER"@)[0]),
                None => props_named(self.0.abs().props, "GENDER"@).len() == 0,
            },
    {
        match self.0.get_only("GENDER") {
            Some(p) => Some(Gender::from_property(p)),
            None => None,
        }
    }

    /// The first stored `PRODID` property, or nothing when absent.
    pub fn proid(&self) -> (r: Option<Proid>)
        ensures
            match r {
                Some(x) => props_named(self.0.abs().props, "PRODID"@).len() > 0 && x.abs()
                    == prop_data(props_named(self.0.abs().props, "PRODID"@)[0]),
                None => props_named(self.0.abs().props, "PRODID"@).len() == 0,
            },
    {
        match self.0.get_only("PRODID") {
            Some(p) => Some(Proid::from_property(p)),
            None => None,
        }
    }

    /// The first stored `REV` property, or nothing when absent.
    pub fn rev(&self) -> (r: Option<Rev>)
        ensures
            match r {
                Some(x) => props_named(self.0.abs().props, "REV"@).len() > 0 && x.abs()
                    == prop_data(props_named(self.0.abs().props, "REV"@)[0]),
                None => props_named(self.0.abs().props, "REV"@).len() == 0,
            },
    {
        match self.0.get_only("REV") {
            Some(p) => Some(Rev::from_property(p)),
            None => None,
        }
    }

    /// The first stored `UID` property, or nothing when absent.
    pub fn uid(&self) -> (r: Option<Uid>)
        ensures
            match r {
                Some(x) => props_named(self.0.abs().props, "UID"@).len() > 0 && x.abs()
                    == prop_data(props_named(self.0.abs().props, "UID"@)[0]),
                None => props_named(self.0.abs().props, "UID"@).len() == 0,
            },
    {
        match self.0.get_only("UID") {
            Some(p) => Some(Uid::from_property(p)),
            None => None,
        }
    }

}

impl Name {
    /// The stored `N` value, verbatim.
    pub fn plain(&self) -> (r: String)
        ensures
            r@ == self.abs().0,
    {
        self.0.clone()
    }

    /// The `n`-th semicolon-separated piece of the value, or nothing when
    /// there are not that many pieces.
    fn nth_piece(&self, n: usize) -> (r: Option<String>)
        ensures
            match r {
                Some(s) => n < split_on(self.0@, ';').len() && s@ == split_on(self.0@, ';')[n as int],
                None => n >= split_on(self.0@, ';').len(),
            },
    {
        let v = str_chars(&self.0);
        let parts = split_on_exec(&v, ';');
        if n < parts.len() {
            proof {
                assert(views(parts@)[n as int] == parts@[n as int]@);
            }
            Some(chars_to_string(&parts[n]))
        } else {
            None
        }
    }

    /// The first piece of the `N` value.
    pub fn surname(&self) -> (r: Option<String>)
        ensures
            match r {
                Some(s) => 0 < split_on(self.0@, ';').len() && s@ == split_on(self.0@, ';')[0],
                None => split_on(self.0@, ';').len() == 0,
            },
    {
        self.nth_piece(0)
    }

    /// The second piece of the `N` value.
    pub fn given_name(&self) -> (r: Option<String>)
        ensures
            match r {
                Some(s) => 1 < split_on(self.0@, ';').len() && s@ == split_on(self.0@, ';')[1],
                None => split_on(self.0@, ';').len() <= 1,
            },
    {
        self.nth_piece(1)
    }

    /// The third piece of the `N` value.
    pub fn additional_names(&self) -> (r: Option<String>)
        ensures
            match r {
                Some(s) => 2 < split_on(self.0@, ';').len() && s@ == split_on(self.0@, ';')[2],
                None => split_on(self.0@, ';').len() <= 2,
            },
    {
        self.nth_piece(2)
    }

    /// The fourth piece of the `N` value.
    pub fn honorific_prefixes(&self) -> (r: Option<String>)
        ensures
            match r {
                Some(s) => 3 < split_on(self.0@, ';').len() && s@ == split_on(self.0@, ';')[3],
                None => split_on(self.0@, ';').len() <= 3,
            },
    {
        self.nth_piece(3)
    }

    /// The fifth piece of the `N` value.
    pub fn honorific_suffixes(&self) -> (r: Option<String>)
        ensures
            match r {
                Some(s) => 4 < split_on(self.0@, ';').len() && s@ == split_on(self.0@, ';')[4],
                None => split_on(self.0@, ';').len() <= 4,
            },
    {
        self.nth_piece(4)
    }

    /// Alias for `Name::surname`.
    pub fn family_name(&self) -> (r: Option<String>)
        ensures
            match r {
                Some(s) => 0 < split_on(self.0@, ';').len() && s@ == split_on(self.0@, ';')[0],
                None => split_on(self.0@, ';').len() == 0,
            },
    {
        self.surname()
    }
}

} // verus!
