//! Declarations as the planner sees them.
use vstd::prelude::*;
use vstd::string::*;

verus! {

/// A type as it is written.
#[derive(Debug)]
pub enum TypeDecl {
    /// A path; only its last segment counts.
    Named {
        /// Last segment.
        name: String,
        /// Arguments of the last segment.
        args: ArgList,
        /// The whole type as text.
        text: String,
    },
    /// Any other type.
    Opaque {
        /// The whole type as text.
        text: String,
    },
}

/// The generic arguments of a path segment.
#[derive(Debug)]
pub enum ArgList {
    /// None at all.
    Absent,
    /// Arguments in angle brackets; `None` stands for one that is no type.
    Angle(Vec<Option<TypeDecl>>),
    /// Arguments in round brackets.
    Paren,
}

/// The mathematical shape of a [`TypeDecl`].
pub enum SpecType {
    Named { name: Seq<char>, args: SpecArgs, text: Seq<char> },
    Opaque { text: Seq<char> },
}

/// The mathematical shape of an [`ArgList`].
pub enum SpecArgs {
    Absent,
    Angle(Seq<Option<SpecType>>),
    Paren,
}

/// The view of a type.
pub open spec fn type_view(t: TypeDecl) -> SpecType
    decreases t,
{
    match t {
        TypeDecl::Named { name, args, text } => SpecType::Named {
            name: name@,
            args: args_view(args),
            text: text@,
        },
        TypeDecl::Opaque { text } => SpecType::Opaque { text: text@ },
    }
}

/// The view of an argument list.
pub open spec fn args_view(a: ArgList) -> SpecArgs
    decreases a,
{
    match a {
        ArgList::Absent => SpecArgs::Absent,
        ArgList::Angle(ts) => SpecArgs::Angle(
            Seq::new(
                ts@.len(),
                |i: int|
                    if 0 <= i < ts@.len() {
                        match ts@[i] {
                            Some(t) => Some(type_view(t)),
                            None => None,
                        }
                    } else {
                        None
                    },
            ),
        ),
        ArgList::Paren => SpecArgs::Paren,
    }
}

impl View for TypeDecl {
    type V = SpecType;

    open spec fn view(&self) -> SpecType {
        type_view(*self)
    }
}

/// The text of a type.
pub open spec fn type_text(t: SpecType) -> Seq<char> {
    match t {
        SpecType::Named { text, .. } => text,
        SpecType::Opaque { text } => text,
    }
}

impl TypeDecl {
    /// The type as text.
    pub fn text<'a>(&'a self) -> (out: &'a str)
        ensures
            out@ == type_text(self@),
    {
        match self {
            TypeDecl::Named { text, .. } => text.as_str(),
            TypeDecl::Opaque { text } => text.as_str(),
        }
    }
}

/// A path given as a value.
#[derive(Debug)]
pub struct PathDecl {
    /// Segments, without their arguments.
    pub segments: Vec<String>,
    /// The whole path as text.
    pub text: String,
}

/// The mathematical shape of a [`PathDecl`].
pub struct SpecPath {
    pub segments: Seq<Seq<char>>,
    pub text: Seq<char>,
}

impl View for PathDecl {
    type V = SpecPath;

    open spec fn view(&self) -> SpecPath {
        SpecPath { segments: crate::text::strings_view(self.segments@), text: self.text@ }
    }
}

/// One entry inside an annotation.
#[derive(Debug)]
pub struct MetaDecl {
    /// The key, if it is a plain name.
    pub key: Option<String>,
    /// What follows the key.
    pub value: MetaValue,
}

/// What follows the key of an entry.
#[derive(Debug)]
pub enum MetaValue {
    /// Nothing.
    Flag,
    /// `= "text"`.
    Text(String),
    /// `= some::path`.
    Path(PathDecl),
    /// `=` and anything else.
    Other,
    /// A list in round brackets.
    List(Vec<MetaDecl>),
}

/// The mathematical shape of a [`MetaDecl`].
pub struct SpecMeta {
    pub key: Option<Seq<char>>,
    pub value: SpecMetaValue,
}

/// The mathematical shape of a [`MetaValue`].
pub enum SpecMetaValue {
    Flag,
    Text(Seq<char>),
    Path(SpecPath),
    Other,
    List(Seq<SpecMeta>),
}

/// The view of an entry.
pub open spec fn meta_view(m: MetaDecl) -> SpecMeta
    decreases m,
{
    SpecMeta {
        key: match m.key {
            Some(k) => Some(k@),
            None => None,
        },
        value: match m.value {
            MetaValue::Flag => SpecMetaValue::Flag,
            MetaValue::Text(t) => SpecMetaValue::Text(t@),
            MetaValue::Path(p) => SpecMetaValue::Path(p@),
            MetaValue::Other => SpecMetaValue::Other,
            MetaValue::List(ms) => SpecMetaValue::List(metas_view(ms@)),
        },
    }
}

/// The views of a list of entries.
pub open spec fn metas_view(ms: Seq<MetaDecl>) -> Seq<SpecMeta>
    decreases ms,
{
    Seq::new(
        ms.len(),
        |i: int|
            if 0 <= i < ms.len() {
                meta_view(ms[i])
            } else {
                arbitrary()
            },
    )
}

impl View for MetaDecl {
    type V = SpecMeta;

    open spec fn view(&self) -> SpecMeta {
        meta_view(*self)
    }
}

/// An annotation.
#[derive(Debug)]
pub struct AttrDecl {
    /// Its name.
    pub name: String,
    /// Its entries, if it has a list of them.
    pub metas: Option<Vec<MetaDecl>>,
}

/// The mathematical shape of an [`AttrDecl`].
pub struct SpecAttr {
    pub name: Seq<char>,
    pub metas: Option<Seq<SpecMeta>>,
}

impl View for AttrDecl {
    type V = SpecAttr;

    open spec fn view(&self) -> SpecAttr {
        SpecAttr {
            name: self.name@,
            metas: match self.metas {
                Some(ms) => Some(metas_view(ms@)),
                None => None,
            },
        }
    }
}

/// The views of a list of annotations.
pub open spec fn attrs_view(attrs: Seq<AttrDecl>) -> Seq<SpecAttr> {
    Seq::new(attrs.len(), |i: int| attrs[i]@)
}

/// A field.
#[derive(Debug)]
pub struct FieldDecl {
    /// Its name; empty for an unnamed field.
    pub name: String,
    /// Its type.
    pub ty: TypeDecl,
    /// Its annotations.
    pub attrs: Vec<AttrDecl>,
}

/// The mathematical shape of a [`FieldDecl`].
pub struct SpecField {
    pub name: Seq<char>,
    pub ty: SpecType,
    pub attrs: Seq<SpecAttr>,
}

impl View for FieldDecl {
    type V = SpecField;

    open spec fn view(&self) -> SpecField {
        SpecField { name: self.name@, ty: self.ty@, attrs: attrs_view(self.attrs@) }
    }
}

/// The views of a list of fields.
pub open spec fn fields_view(fields: Seq<FieldDecl>) -> Seq<SpecField> {
    Seq::new(fields.len(), |i: int| fields[i]@)
}

/// The fields of a variant.
#[derive(Debug)]
pub enum FieldsDecl {
    /// Named fields.
    Named(Vec<FieldDecl>),
    /// Unnamed fields.
    Unnamed(Vec<FieldDecl>),
    /// No fields.
    Unit,
}

/// The mathematical shape of a [`FieldsDecl`].
pub enum SpecFields {
    Named(Seq<SpecField>),
    Unnamed(Seq<SpecField>),
    Unit,
}

impl View for FieldsDecl {
    type V = SpecFields;

    open spec fn view(&self) -> SpecFields {
        match self {
            FieldsDecl::Named(fs) => SpecFields::Named(fields_view(fs@)),
            FieldsDecl::Unnamed(fs) => SpecFields::Unnamed(fields_view(fs@)),
            FieldsDecl::Unit => SpecFields::Unit,
        }
    }
}

/// A variant of an enum.
#[derive(Debug)]
pub struct VariantDecl {
    /// Its name.
    pub name: String,
    /// Its fields.
    pub fields: FieldsDecl,
    /// Its annotations.
    pub attrs: Vec<AttrDecl>,
}

/// The mathematical shape of a [`VariantDecl`].
pub struct SpecVariant {
    pub name: Seq<char>,
    pub fields: SpecFields,
    pub attrs: Seq<SpecAttr>,
}

impl View for VariantDecl {
    type V = SpecVariant;

    open spec fn view(&self) -> SpecVariant {
        SpecVariant { name: self.name@, fields: self.fields@, attrs: attrs_view(self.attrs@) }
    }
}

/// The views of a list of variants.
pub open spec fn variants_view(vs: Seq<VariantDecl>) -> Seq<SpecVariant> {
    Seq::new(vs.len(), |i: int| vs[i]@)
}

/// The type an implementation is derived for.
#[derive(Debug)]
pub struct InputDecl {
    /// Its name.
    pub name: String,
    /// Its annotations.
    pub attrs: Vec<AttrDecl>,
    /// Its variants, if it is an enum.
    pub variants: Option<Vec<VariantDecl>>,
}

/// The mathematical shape of an [`InputDecl`].
pub struct SpecInput {
    pub name: Seq<char>,
    pub attrs: Seq<SpecAttr>,
    pub variants: Option<Seq<SpecVariant>>,
}

impl View for InputDecl {
    type V = SpecInput;

    open spec fn view(&self) -> SpecInput {
        SpecInput {
            name: self.name@,
            attrs: attrs_view(self.attrs@),
            variants: match self.variants {
                Some(vs) => Some(variants_view(vs@)),
                None => None,
            },
        }
    }
}

/// Why nothing can be derived.
#[derive(Debug)]
pub struct DeriveError {
    /// The message shown at the declaration.
    pub message: String,
}

impl View for DeriveError {
    type V = Seq<char>;

    open spec fn view(&self) -> Seq<char> {
        self.message@
    }
}

impl DeriveError {
    /// An error with a message.
    pub fn new(message: &str) -> (out: Self)
        ensures
            out@ == message@,
    {
        DeriveError { message: message.to_owned() }
    }

    /// The message.
    pub fn to_text(&self) -> (out: String)
        ensures
            out@ == self@,
    {
        self.message.clone()
    }
}

/// The view of a plan or of why there is none.
pub open spec fn planned<T: View>(out: Result<T, DeriveError>) -> Result<T::V, Seq<char>> {
    match out {
        Ok(t) => Ok(t@),
        Err(e) => Err(e@),
    }
}

/// Goes through `xs` from position `i` on; the first refusal ends it.
pub open spec fn fold_from<X, S>(
    xs: Seq<X>,
    i: int,
    state: S,
    step: spec_fn(S, X) -> Result<S, Seq<char>>,
) -> Result<S, Seq<char>>
    decreases xs.len() - i,
{
    if i < 0 || i >= xs.len() {
        Ok(state)
    } else {
        match step(state, xs[i]) {
            Err(e) => Err(e),
            Ok(next) => fold_from(xs, i + 1, next, step),
        }
    }
}

} // verus!
