//! Reading annotations.
use vstd::prelude::*;

use crate::derive::decl::{
    attrs_view, fold_from, metas_view, AttrDecl, DeriveError, FieldDecl, FieldsDecl, InputDecl,
    MetaDecl, MetaValue, PathDecl, SpecAttr, SpecField, SpecFields, SpecMeta, SpecMetaValue,
    SpecPath, VariantDecl, fields_view, variants_view,
};
use crate::text::{cat3, same_text};

verus! {

/// The view of a text or of why there is none.
pub open spec fn text_result(out: Result<&str, DeriveError>) -> Result<Seq<char>, Seq<char>> {
    match out {
        Ok(t) => Ok(t@),
        Err(e) => Err(e@),
    }
}

/// Whether an entry has this key.
pub open spec fn keyed(m: SpecMeta, key: Seq<char>) -> bool {
    m.key == Some(key)
}

/// The text behind an entry's key.
pub open spec fn text_of(m: SpecMeta) -> Result<Seq<char>, Seq<char>> {
    match m.value {
        SpecMetaValue::Text(t) => Ok(t),
        SpecMetaValue::Flag => Err("expected `=`"@),
        SpecMetaValue::List(_) => Err("expected `=`"@),
        _ => Err("expected string literal"@),
    }
}

/// The path behind an entry's key.
pub open spec fn path_of(m: SpecMeta) -> Result<SpecPath, Seq<char>> {
    match m.value {
        SpecMetaValue::Path(p) => Ok(p),
        SpecMetaValue::Flag => Err("expected `=`"@),
        SpecMetaValue::List(_) => Err("expected `=`"@),
        _ => Err("expected identifier"@),
    }
}

/// The plain name behind an entry's key.
pub open spec fn name_of(m: SpecMeta) -> Result<Seq<char>, Seq<char>> {
    match path_of(m) {
        Ok(p) => if p.segments.len() == 1 {
            Ok(p.segments[0])
        } else {
            Err("expected `,`"@)
        },
        Err(e) => Err(e),
    }
}

/// A nested list of entries, which is never empty.
pub open spec fn some_entries(ms: Seq<SpecMeta>) -> Result<Seq<SpecMeta>, Seq<char>> {
    if ms.len() == 0 {
        Err("unexpected end of input, expected nested attribute"@)
    } else {
        Ok(ms)
    }
}

/// The list behind an entry's key.
pub open spec fn list_of(m: SpecMeta) -> Result<Seq<SpecMeta>, Seq<char>> {
    match m.value {
        SpecMetaValue::List(ms) => some_entries(ms),
        _ => Err("expected parentheses"@),
    }
}

/// That nothing stands behind an entry's key.
pub open spec fn flag_of(m: SpecMeta) -> Result<(), Seq<char>> {
    match m.value {
        SpecMetaValue::Flag => Ok(()),
        _ => Err("expected `,`"@),
    }
}

/// The entries of an annotation, which may have none.
pub open spec fn entries_of(a: SpecAttr) -> Result<Seq<SpecMeta>, Seq<char>> {
    match a.metas {
        None => Err("expected attribute arguments in parentheses: #["@ + a.name + "(...)]"@),
        Some(ms) => Ok(ms),
    }
}

impl MetaDecl {
    /// Whether the entry has this key.
    pub fn keyed(&self, key: &str) -> (out: bool)
        ensures
            out == keyed(self@, key@),
    {
        match &self.key {
            Some(k) => same_text(k.as_str(), key),
            None => false,
        }
    }

    /// The text behind the key.
    pub fn text<'a>(&'a self) -> (out: Result<&'a str, DeriveError>)
        ensures
            text_result(out) == text_of(self@),
    {
        match &self.value {
            MetaValue::Text(t) => Ok(t.as_str()),
            MetaValue::Flag => Err(DeriveError::new("expected `=`")),
            MetaValue::List(_) => Err(DeriveError::new("expected `=`")),
            _ => Err(DeriveError::new("expected string literal")),
        }
    }

    /// The path behind the key.
    pub fn path<'a>(&'a self) -> (out: Result<&'a PathDecl, DeriveError>)
        ensures
            match out {
                Ok(p) => path_of(self@) == Ok::<SpecPath, Seq<char>>(p@),
                Err(e) => path_of(self@) == Err::<SpecPath, Seq<char>>(e@),
            },
    {
        match &self.value {
            MetaValue::Path(p) => Ok(p),
            MetaValue::Flag => Err(DeriveError::new("expected `=`")),
            MetaValue::List(_) => Err(DeriveError::new("expected `=`")),
            _ => Err(DeriveError::new("expected identifier")),
        }
    }

    /// The plain name behind the key.
    pub fn name<'a>(&'a self) -> (out: Result<&'a str, DeriveError>)
        ensures
            text_result(out) == name_of(self@),
    {
        match self.path() {
            Ok(p) => {
                assert(p@.segments.len() == p.segments@.len());
                if p.segments.len() == 1 {
                    assert(p@.segments[0] == p.segments@[0]@);
                    Ok(p.segments[0].as_str())
                } else {
                    Err(DeriveError::new("expected `,`"))
                }
            },
            Err(e) => Err(e),
        }
    }

    /// The list behind the key.
    pub fn list<'a>(&'a self) -> (out: Result<&'a Vec<MetaDecl>, DeriveError>)
        ensures
            match out {
                Ok(ms) => list_of(self@) == Ok::<Seq<SpecMeta>, Seq<char>>(metas_view(ms@)),
                Err(e) => list_of(self@) == Err::<Seq<SpecMeta>, Seq<char>>(e@),
            },
    {
        match &self.value {
            MetaValue::List(ms) => {
                assert(metas_view(ms@).len() == ms@.len());
                if ms.len() == 0 {
                    Err(DeriveError::new("unexpected end of input, expected nested attribute"))
                } else {
                    Ok(ms)
                }
            },
            _ => Err(DeriveError::new("expected parentheses")),
        }
    }

    /// That nothing stands behind the key.
    pub fn flag(&self) -> (out: Result<(), DeriveError>)
        ensures
            match out {
                Ok(()) => flag_of(self@) is Ok,
                Err(e) => flag_of(self@) == Err::<(), Seq<char>>(e@),
            },
    {
        match &self.value {
            MetaValue::Flag => Ok(()),
            _ => Err(DeriveError::new("expected `,`")),
        }
    }
}

impl AttrDecl {
    /// The entries of the annotation.
    pub fn entries<'a>(&'a self) -> (out: Result<&'a Vec<MetaDecl>, DeriveError>)
        ensures
            match out {
                Ok(ms) => entries_of(self@) == Ok::<Seq<SpecMeta>, Seq<char>>(metas_view(ms@)),
                Err(e) => entries_of(self@) == Err::<Seq<SpecMeta>, Seq<char>>(e@),
            },
    {
        match &self.metas {
            None => Err(
                DeriveError {
                    message: cat3(
                        "expected attribute arguments in parentheses: #[",
                        self.name.as_str(),
                        "(...)]",
                    ),
                },
            ),
            Some(ms) => Ok(ms),
        }
    }
}

/// What is known of a field's converter: its path, and whether the current
/// annotation named one.
pub struct SpecWith {
    pub with: Option<SpecPath>,
    pub seen: bool,
}

/// One entry of a converter annotation.
pub open spec fn with_entry(name: Seq<char>) -> spec_fn(SpecWith, SpecMeta) -> Result<
    SpecWith,
    Seq<char>,
> {
    |s: SpecWith, m: SpecMeta|
        if !keyed(m, "with"@) {
            Err("unsupported #["@ + name + "(...)] key; expected `with = <path>`"@)
        } else if s.with is Some {
            Err("duplicate #["@ + name + "(with = ...)] — a field takes one converter"@)
        } else {
            match path_of(m) {
                Ok(p) => Ok(SpecWith { with: Some(p), seen: true }),
                Err(e) => Err(e),
            }
        }
}

/// One annotation of a field that may name a converter.
pub open spec fn with_attribute(name: Seq<char>) -> spec_fn(Option<SpecPath>, SpecAttr) -> Result<
    Option<SpecPath>,
    Seq<char>,
> {
    |with: Option<SpecPath>, a: SpecAttr|
        if a.name != name {
            Ok(with)
        } else {
            match entries_of(a) {
                Err(e) => Err(e),
                Ok(ms) => match fold_from(
                    ms,
                    0,
                    SpecWith { with, seen: false },
                    with_entry(name),
                ) {
                    Err(e) => Err(e),
                    Ok(s) => if s.seen {
                        Ok(s.with)
                    } else {
                        Err("#["@ + name + "] requires `with = <path>`"@)
                    },
                },
            }
        }
}

/// The converter of a field: at most one `name(with = path)`.
pub open spec fn with_path(attrs: Seq<SpecAttr>, name: Seq<char>) -> Result<
    Option<SpecPath>,
    Seq<char>,
> {
    fold_from(attrs, 0, None, with_attribute(name))
}

/// The view of an optional path.
pub open spec fn path_opt(p: Option<&PathDecl>) -> Option<SpecPath> {
    match p {
        Some(p) => Some(p@),
        None => None,
    }
}

/// Reads the converter of a field: at most one `name(with = path)`.
pub fn with_attr<'a>(attrs: &'a Vec<AttrDecl>, name: &str) -> (out: Result<
    Option<&'a PathDecl>,
    DeriveError,
>)
    ensures
        match out {
            Ok(p) => with_path(attrs_view(attrs@), name@) == Ok::<
                Option<SpecPath>,
                Seq<char>,
            >(path_opt(p)),
            Err(e) => with_path(attrs_view(attrs@), name@) == Err::<
                Option<SpecPath>,
                Seq<char>,
            >(e@),
        },
{
    let ghost all = attrs_view(attrs@);
    let mut with: Option<&'a PathDecl> = None;
    let n: usize = attrs.len();
    for i in 0..n
        invariant
            n == attrs@.len(),
            all == attrs_view(attrs@),
            with_path(all, name@) == fold_from(
                all,
                i as int,
                path_opt(with),
                with_attribute(name@),
            ),
    {
        let attr = &attrs[i];
        assert(all[i as int] == attr@);
        if same_text(attr.name.as_str(), name) {
            let metas = match attr.entries() {
                Ok(ms) => ms,
                Err(e) => {
                    return Err(e);
                },
            };
            let ghost before = path_opt(with);
            let ghost list = metas_view(metas@);
            let mut seen: bool = false;
            let m: usize = metas.len();
            for j in 0..m
                invariant
                    m == metas@.len(),
                    list == metas_view(metas@),
                    fold_from(
                        list,
                        0,
                        SpecWith { with: before, seen: false },
                        with_entry(name@),
                    ) == fold_from(
                        list,
                        j as int,
                        SpecWith { with: path_opt(with), seen },
                        with_entry(name@),
                    ),
                    n == attrs@.len(),
                    i < n,
                    all == attrs_view(attrs@),
                    all[i as int] == attr@,
                    attr.name@ == name@,
                    entries_of(attr@) == Ok::<Seq<SpecMeta>, Seq<char>>(list),
                    with_path(all, name@) == fold_from(
                        all,
                        i as int,
                        before,
                        with_attribute(name@),
                    ),
            {
                let meta = &metas[j];
                assert(list[j as int] == meta@);
                if !meta.keyed("with") {
                    return Err(
                        DeriveError {
                            message: cat3(
                                "unsupported #[",
                                name,
                                "(...)] key; expected `with = <path>`",
                            ),
                        },
                    );
                }
                if with.is_some() {
                    return Err(
                        DeriveError {
                            message: cat3(
                                "duplicate #[",
                                name,
                                "(with = ...)] — a field takes one converter",
                            ),
                        },
                    );
                }
                match meta.path() {
                    Ok(p) => {
                        with = Some(p);
                        seen = true;
                    },
                    Err(e) => {
                        return Err(e);
                    },
                }
            }
            if !seen {
                return Err(
                    DeriveError { message: cat3("#[", name, "] requires `with = <path>`") },
                );
            }
        }
    }
    Ok(with)
}

/// The refusal of anything but an enum.
pub open spec fn enums_only(derive: Seq<char>) -> Seq<char> {
    "#[derive("@ + derive + ")] currently supports enums only"@
}

/// The refusal of unnamed fields.
pub open spec fn named_only(derive: Seq<char>) -> Seq<char> {
    "#[derive("@ + derive + ")] requires every variant to use named fields"@
}

/// The refusal of a variant without identity.
pub open spec fn id_needed(derive: Seq<char>) -> Seq<char> {
    "#[derive("@ + derive + ")] requires each variant to have an `id: NodeId` field"@
}

/// Whether some field has this name.
pub open spec fn has_field(fields: Seq<SpecField>, name: Seq<char>) -> bool {
    exists|i: int| 0 <= i < fields.len() && (#[trigger] fields[i]).name == name
}

/// The variants of an enum.
pub(crate) fn enum_variants<'a>(input: &'a InputDecl, derive: &str) -> (out: Result<
    &'a Vec<VariantDecl>,
    DeriveError,
>)
    ensures
        match out {
            Ok(vs) => input@.variants == Some(variants_view(vs@)),
            Err(e) => input@.variants is None && e@ == enums_only(derive@),
        },
{
    match &input.variants {
        Some(vs) => Ok(vs),
        None => Err(
            DeriveError { message: cat3("#[derive(", derive, ")] currently supports enums only") },
        ),
    }
}

/// The named fields of a variant.
pub(crate) fn named_fields<'a>(variant: &'a VariantDecl, derive: &str) -> (out: Result<
    &'a Vec<FieldDecl>,
    DeriveError,
>)
    ensures
        match out {
            Ok(fs) => variant@.fields == SpecFields::Named(fields_view(fs@)),
            Err(e) => !(variant@.fields is Named) && e@ == named_only(derive@),
        },
{
    match &variant.fields {
        FieldsDecl::Named(fs) => Ok(fs),
        _ => Err(
            DeriveError {
                message: cat3(
                    "#[derive(",
                    derive,
                    ")] requires every variant to use named fields",
                ),
            },
        ),
    }
}

/// The position of the first field with a name, or the length.
pub(crate) fn find_field(fields: &Vec<FieldDecl>, name: &str) -> (out: usize)
    ensures
        out <= fields@.len(),
        out < fields@.len() ==> fields@[out as int]@.name == name@,
        forall|j: int| 0 <= j < out ==> (#[trigger] fields_view(fields@)[j]).name != name@,
        (out < fields@.len()) == has_field(fields_view(fields@), name@),
{
    let ghost all = fields_view(fields@);
    let n: usize = fields.len();
    for i in 0..n
        invariant
            n == fields@.len(),
            all == fields_view(fields@),
            forall|j: int| 0 <= j < i ==> (#[trigger] all[j]).name != name@,
    {
        assert(all[i as int] == fields@[i as int]@);
        if same_text(fields[i].name.as_str(), name) {
            return i;
        }
    }
    n
}

} // verus!
