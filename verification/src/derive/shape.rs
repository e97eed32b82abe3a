//! What a field's type makes of it.
use vstd::prelude::*;
use vstd::string::*;

use crate::derive::decl::{args_view, type_view, ArgList, SpecArgs, SpecType, TypeDecl};
use crate::text::{chars_of, same_text};

verus! {

/// How a field holds nodes of the enum itself.
#[derive(Debug, Clone, Copy, PartialEq, Eq, Structural)]
pub enum Recursion {
    /// `T`
    Direct,
    /// `Box<T>`
    Boxed,
    /// `Option<T>`
    Optional,
    /// `Option<Box<T>>`
    OptionalBoxed,
    /// `Vec<T>`
    Many,
    /// `Vec<Box<T>>`
    ManyBoxed,
    /// `BTreeMap<String, T>`
    Keyed,
    /// `BTreeMap<String, Box<T>>`
    KeyedBoxed,
}

/// Wrapper of a payload type whose absence has an obvious default.
#[derive(Debug, Clone, Copy, PartialEq, Eq, Structural)]
pub enum PayloadShape {
    /// Plain payload type.
    Bare,
    /// `Option<T>`; absent means `None`.
    OptionInner,
    /// `Vec<T>`; absent means empty.
    VecInner,
}

/// Whether a type is a name without arguments.
pub open spec fn is_plain(t: SpecType, wanted: Seq<char>) -> bool {
    t matches SpecType::Named { name, args, .. } && name == wanted && args is Absent
}

/// Whether a type is a path that ends in a name.
pub open spec fn is_named(t: SpecType, wanted: Seq<char>) -> bool {
    t matches SpecType::Named { name, .. } && name == wanted
}

/// The first argument of a type, if it is a type.
pub open spec fn first_arg(t: SpecType) -> Option<SpecType> {
    match t {
        SpecType::Named { args: SpecArgs::Angle(ts), .. } => if ts.len() > 0 {
            ts[0]
        } else {
            None
        },
        _ => None,
    }
}

/// The two arguments of a type, if there are two and both are types.
pub open spec fn two_args(t: SpecType) -> Option<(SpecType, SpecType)> {
    match t {
        SpecType::Named { args: SpecArgs::Angle(ts), .. } => if ts.len() == 2 && ts[0] is Some
            && ts[1] is Some {
            Some((ts[0]->0, ts[1]->0))
        } else {
            None
        },
        _ => None,
    }
}

/// Whether a type is a boxed node.
pub open spec fn is_boxed(t: SpecType, node: Seq<char>) -> bool {
    is_named(t, "Box"@) && (first_arg(t) matches Some(inner) && is_plain(inner, node))
}

/// How a type holds nodes, if it does.
pub open spec fn recursion(t: SpecType, node: Seq<char>) -> Option<Recursion> {
    if is_plain(t, node) {
        Some(Recursion::Direct)
    } else if is_named(t, "BTreeMap"@) {
        match two_args(t) {
            Some((k, v)) => if !is_plain(k, "String"@) {
                None
            } else if is_plain(v, node) {
                Some(Recursion::Keyed)
            } else if is_boxed(v, node) {
                Some(Recursion::KeyedBoxed)
            } else {
                None
            },
            None => None,
        }
    } else if is_boxed(t, node) {
        Some(Recursion::Boxed)
    } else {
        match first_arg(t) {
            Some(inner) => if is_named(t, "Option"@) && is_plain(inner, node) {
                Some(Recursion::Optional)
            } else if is_named(t, "Option"@) && is_boxed(inner, node) {
                Some(Recursion::OptionalBoxed)
            } else if is_named(t, "Vec"@) && is_plain(inner, node) {
                Some(Recursion::Many)
            } else if is_named(t, "Vec"@) && is_boxed(inner, node) {
                Some(Recursion::ManyBoxed)
            } else {
                None
            },
            None => None,
        }
    }
}

/// The value type of a keyed slot that holds no nodes.
pub open spec fn scalar_map(t: SpecType, node: Seq<char>) -> Option<SpecType> {
    if !is_named(t, "BTreeMap"@) {
        None
    } else {
        match two_args(t) {
            Some((k, v)) => if !is_plain(k, "String"@) || is_plain(v, node) {
                None
            } else if is_named(v, "Box"@) && (first_arg(v) is None || is_boxed(v, node)) {
                None
            } else {
                Some(v)
            },
            None => None,
        }
    }
}

/// The wrapper of a payload type, and what it wraps.
pub open spec fn payload(t: SpecType, node: Seq<char>) -> (PayloadShape, Option<SpecType>) {
    match first_arg(t) {
        Some(inner) => if is_plain(inner, node) {
            (PayloadShape::Bare, None)
        } else if is_named(t, "Option"@) {
            (PayloadShape::OptionInner, Some(inner))
        } else if is_named(t, "Vec"@) {
            (PayloadShape::VecInner, Some(inner))
        } else {
            (PayloadShape::Bare, None)
        },
        None => (PayloadShape::Bare, None),
    }
}

impl TypeDecl {
    fn is_plain(&self, wanted: &str) -> (out: bool)
        ensures
            out == is_plain(self@, wanted@),
    {
        match self {
            TypeDecl::Named { name, args: ArgList::Absent, .. } => same_text(name.as_str(), wanted),
            _ => false,
        }
    }

    fn is_named(&self, wanted: &str) -> (out: bool)
        ensures
            out == is_named(self@, wanted@),
    {
        match self {
            TypeDecl::Named { name, .. } => same_text(name.as_str(), wanted),
            _ => false,
        }
    }

    fn first_arg<'a>(&'a self) -> (out: Option<&'a TypeDecl>)
        ensures
            match out {
                Some(t) => first_arg(self@) == Some(t@),
                None => first_arg(self@) is None,
            },
    {
        proof {
            reveal_with_fuel(type_view, 3);
            reveal_with_fuel(args_view, 3);
        }
        match self {
            TypeDecl::Named { name: _, args, text: _ } => match args {
                ArgList::Angle(ts) => {
                    assert(args_view(*args) is Angle);
                    assert(args_view(*args)->Angle_0.len() == ts@.len());
                    if ts.len() > 0 {
                        assert(args_view(*args)->Angle_0[0] == match ts@[0] {
                            Some(t) => Some(type_view(t)),
                            None => None,
                        });
                        match &ts[0] {
                            Some(t) => Some(t),
                            None => None,
                        }
                    } else {
                        None
                    }
                },
                _ => None,
            },
            _ => None,
        }
    }

    fn two_args<'a>(&'a self) -> (out: Option<(&'a TypeDecl, &'a TypeDecl)>)
        ensures
            match out {
                Some(p) => two_args(self@) == Some((p.0@, p.1@)),
                None => two_args(self@) is None,
            },
    {
        proof {
            reveal_with_fuel(type_view, 3);
            reveal_with_fuel(args_view, 3);
        }
        match self {
            TypeDecl::Named { name: _, args, text: _ } => match args {
                ArgList::Angle(ts) => {
                    assert(args_view(*args)->Angle_0.len() == ts@.len());
                    if ts.len() == 2 {
                        assert(args_view(*args)->Angle_0[0] == match ts@[0] {
                            Some(t) => Some(type_view(t)),
                            None => None,
                        });
                        assert(args_view(*args)->Angle_0[1] == match ts@[1] {
                            Some(t) => Some(type_view(t)),
                            None => None,
                        });
                        match (&ts[0], &ts[1]) {
                            (Some(a), Some(b)) => Some((a, b)),
                            _ => None,
                        }
                    } else {
                        None
                    }
                },
                _ => None,
            },
            _ => None,
        }
    }

    fn is_boxed(&self, node: &str) -> (out: bool)
        ensures
            out == is_boxed(self@, node@),
    {
        if !self.is_named("Box") {
            return false;
        }
        match self.first_arg() {
            Some(inner) => inner.is_plain(node),
            None => false,
        }
    }
}

/// How a type holds nodes of `enum_name`, if it does.
pub fn detect_recursion(ty: &TypeDecl, enum_name: &str) -> (out: Option<Recursion>)
    ensures
        out == recursion(ty@, enum_name@),
{
    proof {
        reveal_strlit("BTreeMap");
        reveal_strlit("Box");
        reveal_strlit("Option");
        reveal_strlit("Vec");
        assert("BTreeMap"@[1] != "Box"@[1]);
        assert("Option"@[0] != "Vec"@[0]);
    }
    if ty.is_plain(enum_name) {
        return Some(Recursion::Direct);
    }
    if ty.is_named("BTreeMap") {
        return match ty.two_args() {
            Some((k, v)) => {
                if !k.is_plain("String") {
                    None
                } else if v.is_plain(enum_name) {
                    Some(Recursion::Keyed)
                } else if v.is_boxed(enum_name) {
                    Some(Recursion::KeyedBoxed)
                } else {
                    None
                }
            },
            None => None,
        };
    }
    if ty.is_boxed(enum_name) {
        return Some(Recursion::Boxed);
    }
    match ty.first_arg() {
        Some(inner) => {
            if ty.is_named("Option") {
                if inner.is_plain(enum_name) {
                    Some(Recursion::Optional)
                } else if inner.is_boxed(enum_name) {
                    Some(Recursion::OptionalBoxed)
                } else {
                    None
                }
            } else if ty.is_named("Vec") {
                if inner.is_plain(enum_name) {
                    Some(Recursion::Many)
                } else if inner.is_boxed(enum_name) {
                    Some(Recursion::ManyBoxed)
                } else {
                    None
                }
            } else {
                None
            }
        },
        None => None,
    }
}

/// The value type of a keyed slot that holds no nodes.
pub fn detect_scalar_map<'a>(ty: &'a TypeDecl, enum_name: &str) -> (out: Option<&'a TypeDecl>)
    ensures
        match out {
            Some(v) => scalar_map(ty@, enum_name@) == Some(v@),
            None => scalar_map(ty@, enum_name@) is None,
        },
{
    if !ty.is_named("BTreeMap") {
        return None;
    }
    match ty.two_args() {
        Some((k, v)) => {
            if !k.is_plain("String") || v.is_plain(enum_name) {
                return None;
            }
            if v.is_named("Box") {
                match v.first_arg() {
                    None => {
                        return None;
                    },
                    Some(inner) => {
                        if inner.is_plain(enum_name) {
                            return None;
                        }
                    },
                }
            }
            Some(v)
        },
        None => None,
    }
}

/// The wrapper of a payload type, and what it wraps.
pub fn payload_shape<'a>(ty: &'a TypeDecl, enum_name: &str) -> (out: (
    PayloadShape,
    Option<&'a TypeDecl>,
))
    ensures
        out.0 == payload(ty@, enum_name@).0,
        match out.1 {
            Some(t) => payload(ty@, enum_name@).1 == Some(t@),
            None => payload(ty@, enum_name@).1 is None,
        },
{
    match ty.first_arg() {
        Some(inner) => {
            if inner.is_plain(enum_name) {
                (PayloadShape::Bare, None)
            } else if ty.is_named("Option") {
                (PayloadShape::OptionInner, Some(inner))
            } else if ty.is_named("Vec") {
                (PayloadShape::VecInner, Some(inner))
            } else {
                (PayloadShape::Bare, None)
            }
        },
        None => (PayloadShape::Bare, None),
    }
}

/// Whether a character separates words.
pub open spec fn is_blank(c: char) -> bool {
    ('\u{9}' <= c && c <= '\u{d}') || c == ' ' || c == '\u{85}' || c == '\u{a0}' || c == '\u{1680}'
        || ('\u{2000}' <= c && c <= '\u{200a}') || c == '\u{2028}' || c == '\u{2029}' || c
        == '\u{202f}' || c == '\u{205f}' || c == '\u{3000}'
}

/// Whether a character separates words: the white space of Unicode.
pub fn blank(c: char) -> (out: bool)
    ensures
        out == is_blank(c),
{
    ('\u{9}' <= c && c <= '\u{d}') || c == ' ' || c == '\u{85}' || c == '\u{a0}' || c == '\u{1680}'
        || ('\u{2000}' <= c && c <= '\u{200a}') || c == '\u{2028}' || c == '\u{2029}' || c
        == '\u{202f}' || c == '\u{205f}' || c == '\u{3000}'
}

/// The words of a text, from the left.
pub open spec fn words(cs: Seq<char>) -> Seq<Seq<char>>
    decreases cs.len(),
{
    if cs.len() == 0 {
        Seq::empty()
    } else if is_blank(cs.last()) {
        words(cs.drop_last())
    } else if cs.len() > 1 && !is_blank(cs[cs.len() - 2]) {
        let before = words(cs.drop_last());
        before.drop_last().push(before.last().push(cs.last()))
    } else {
        words(cs.drop_last()).push(seq![cs.last()])
    }
}

/// Whether nothing stands before a word.
pub open spec fn hugs_left(w: Seq<char>) -> bool {
    w == "<"@ || w == ">"@ || w == ","@ || w == "::"@ || w == "("@ || w == ")"@
}

/// Whether nothing stands after a word.
pub open spec fn hugs_right(w: Seq<char>) -> bool {
    w == "<"@ || w == "::"@ || w == "&"@ || w == "("@
}

/// The first `n` words in a row: one space between two words that do not
/// touch.
pub open spec fn tidy(ws: Seq<Seq<char>>, n: nat) -> Seq<char>
    decreases n,
{
    if n == 0 || n > ws.len() {
        Seq::empty()
    } else {
        let before = tidy(ws, (n - 1) as nat);
        let w = ws[n - 1];
        if n == 1 || hugs_left(w) || hugs_right(ws[n - 2]) {
            before + w
        } else {
            before.push(' ') + w
        }
    }
}

/// The tidied spelling of a type.
pub open spec fn normalized(s: Seq<char>) -> Seq<char> {
    tidy(words(s), words(s).len())
}

/// After a character that is no blank, the words end with a word.
proof fn lemma_words_end(cs: Seq<char>)
    requires
        cs.len() > 0,
        !is_blank(cs.last()),
    ensures
        words(cs).len() > 0,
    decreases cs.len(),
{
}

/// The words of a text.
fn split_words(s: &str) -> (out: Vec<String>)
    ensures
        crate::text::strings_view(out@) == words(s@),
{
    let cs = chars_of(s);
    let mut out: Vec<String> = Vec::new();
    assert(crate::text::strings_view(out@) =~= words(cs@.take(0)));
    let n: usize = cs.len();
    for i in 0..n
        invariant
            n == cs@.len(),
            cs@ == s@,
            crate::text::strings_view(out@) == words(cs@.take(i as int)),
    {
        let ghost front = cs@.take(i + 1);
        assert(front.drop_last() =~= cs@.take(i as int));
        assert(front.last() == cs@[i as int]);
        let c = cs[i];
        if !blank(c) {
            let joined: bool = i > 0 && !blank(cs[i - 1]);
            assert(i > 0 ==> front[front.len() - 2] == cs@[i - 1]);
            let ghost before = crate::text::strings_view(out@);
            if joined {
                proof {
                    assert(cs@.take(i as int).last() == cs@[i - 1]);
                    lemma_words_end(cs@.take(i as int));
                    assert(out@.len() == before.len());
                }
                let k: usize = out.len() - 1;
                let mut w = out[k].clone();
                w.push(c);
                out.set(k, w);
                assert(crate::text::strings_view(out@) =~= before.drop_last().push(
                    before.last().push(c),
                ));
            } else {
                let mut w = String::new();
                w.push(c);
                assert(w@ =~= seq![c]);
                out.push(w);
                assert(crate::text::strings_view(out@) =~= before.push(seq![c]));
            }
        }
    }
    assert(cs@.take(n as int) =~= s@);
    out
}

fn touches_left(w: &str) -> (out: bool)
    ensures
        out == hugs_left(w@),
{
    same_text(w, "<") || same_text(w, ">") || same_text(w, ",") || same_text(w, "::") || same_text(
        w,
        "(",
    ) || same_text(w, ")")
}

fn touches_right(w: &str) -> (out: bool)
    ensures
        out == hugs_right(w@),
{
    same_text(w, "<") || same_text(w, "::") || same_text(w, "&") || same_text(w, "(")
}

/// Tidies the blanks of a type given as tokens: `Option < String >` becomes
/// `Option<String>`.
pub fn normalize_type_str(s: &str) -> (out: String)
    ensures
        out@ == normalized(s@),
{
    let ws = split_words(s);
    let ghost all = crate::text::strings_view(ws@);
    let mut out = String::new();
    let n: usize = ws.len();
    assert(out@ =~= Seq::empty());
    for i in 0..n
        invariant
            n == ws@.len(),
            all == crate::text::strings_view(ws@),
            out@ == tidy(all, i as nat),
    {
        assert(all[i as int] == ws@[i as int]@);
        if i > 0 {
            assert(all[i - 1] == ws@[i - 1]@);
            if !touches_left(ws[i].as_str()) && !touches_right(ws[i - 1].as_str()) {
                out.push(' ');
            }
        }
        out.append(ws[i].as_str());
    }
    out
}

} // verus!
