//! The value model: typed contents captured by an argument descriptor.
//!
//! A value is one of five scalar kinds or a homogeneous list of one scalar
//! kind. Coercion turns token text into a value of a declared type; rendering
//! gives a value's diagnostic text; extraction projects a value back out in a
//! type-directed way.
//!
//! Floating-point values are held as their verbatim text, gated by the
//! decimal float grammar: the parser never computes with them, so their text
//! is the faithful representation and callers convert where they need a
//! machine float.

use vstd::prelude::*;

use crate::text::bool_of_text;
use crate::text::bool_text;
use crate::text::i32_of_text;
use crate::text::i32_text;
use crate::text::is_float_text;
use crate::text::seq_views;
use crate::text::space_split;
use crate::text::split_spaces;
use crate::text::u32_of_text;
use crate::text::u32_text;
use crate::text::check_float;
use crate::text::parse_bool;
use crate::text::parse_i32;
use crate::text::parse_u32;
use crate::text::render_bool;
use crate::text::render_i32;
use crate::text::render_u32;
use crate::text::lemma_i32_round_trip;
use crate::text::lemma_u32_round_trip;

verus! {

/// The scalar kind of a homogeneous list's elements.
#[derive(Debug, Clone, Copy, PartialEq, Eq, Structural)]
pub enum ListType {
    Int,
    Uint,
    String,
    Bool,
    Float,
}

/// A declared argument type: one of the scalar kinds, or a homogeneous list
/// of one scalar kind.
#[derive(Debug, Clone, Copy, PartialEq, Eq, Structural)]
pub enum DataType {
    Int,
    Uint,
    String,
    Bool,
    Float,
    List(ListType),
}

/// A homogeneous list of captured scalar values.
#[derive(Debug)]
pub struct ContentList {
    pub data_type: ListType,
    pub data: Vec<Content>,
}

/// A captured value.
#[derive(Debug)]
pub enum Content {
    Int(i32),
    Uint(u32),
    String(String),
    Bool(bool),
    Float(String),
    List(ContentList),
}

/// The mathematical model of a captured value.
pub enum ContentModel {
    Int(i32),
    Uint(u32),
    Text(Seq<char>),
    Bool(bool),
    Float(Seq<char>),
    List(ListType, Seq<ContentModel>),
}

/// The model of a scalar value. An element that is itself a list is excluded
/// by the homogeneity invariant; it is modelled as an empty list.
pub open spec fn scalar_model(c: Content) -> ContentModel {
    match c {
        Content::Int(i) => ContentModel::Int(i),
        Content::Uint(u) => ContentModel::Uint(u),
        Content::String(s) => ContentModel::Text(s@),
        Content::Bool(b) => ContentModel::Bool(b),
        Content::Float(t) => ContentModel::Float(t@),
        Content::List(l) => ContentModel::List(l.data_type, Seq::empty()),
    }
}

/// The models of a sequence of scalar values.
pub open spec fn models_of(s: Seq<Content>) -> Seq<ContentModel> {
    s.map_values(|c: Content| scalar_model(c))
}

impl View for Content {
    type V = ContentModel;

    open spec fn view(&self) -> ContentModel {
        match *self {
            Content::List(l) => ContentModel::List(l.data_type, models_of(l.data@)),
            _ => scalar_model(*self),
        }
    }
}

/// Whether a model value is a scalar of the given kind.
pub open spec fn scalar_has_kind(v: ContentModel, k: ListType) -> bool {
    match k {
        ListType::Int => v is Int,
        ListType::Uint => v is Uint,
        ListType::String => v is Text,
        ListType::Bool => v is Bool,
        ListType::Float => v is Float,
    }
}

/// The structural kind of a value: a list yields `List` of its element kind.
pub open spec fn kind_of(v: ContentModel) -> DataType {
    match v {
        ContentModel::Int(_) => DataType::Int,
        ContentModel::Uint(_) => DataType::Uint,
        ContentModel::Text(_) => DataType::String,
        ContentModel::Bool(_) => DataType::Bool,
        ContentModel::Float(_) => DataType::Float,
        ContentModel::List(k, _) => DataType::List(k),
    }
}

/// The declared type of one element of a list of kind `k`.
pub open spec fn elem_type(k: ListType) -> DataType {
    match k {
        ListType::Int => DataType::Int,
        ListType::Uint => DataType::Uint,
        ListType::String => DataType::String,
        ListType::Bool => DataType::Bool,
        ListType::Float => DataType::Float,
    }
}

/// Scalar well-formedness: not a nested list, and float text obeys the
/// decimal float grammar.
pub open spec fn scalar_wf(v: ContentModel) -> bool {
    match v {
        ContentModel::Float(t) => is_float_text(t),
        ContentModel::List(_, _) => false,
        _ => true,
    }
}

/// Homogeneity of a list's elements: every one a well-formed scalar of the
/// list's kind.
pub open spec fn elems_wf(elems: Seq<ContentModel>, k: ListType) -> bool {
    forall|i: int|
        0 <= i < elems.len() ==> scalar_wf(#[trigger] elems[i]) && scalar_has_kind(elems[i], k)
}

/// The value invariant: a list is homogeneous, and float text obeys the
/// decimal float grammar.
pub open spec fn content_wf(v: ContentModel) -> bool {
    match v {
        ContentModel::List(k, elems) => elems_wf(elems, k),
        _ => scalar_wf(v),
    }
}

// ---------------------------------------------------------------------------
// Coercion: token text to a typed value
// ---------------------------------------------------------------------------

/// What coercing text as one scalar kind yields.
pub open spec fn scalar_coerce(s: Seq<char>, k: ListType) -> Option<ContentModel> {
    match k {
        ListType::Int => match i32_of_text(s) {
            Some(i) => Some(ContentModel::Int(i)),
            None => None,
        },
        ListType::Uint => match u32_of_text(s) {
            Some(u) => Some(ContentModel::Uint(u)),
            None => None,
        },
        ListType::String => Some(ContentModel::Text(s)),
        ListType::Bool => match bool_of_text(s) {
            Some(b) => Some(ContentModel::Bool(b)),
            None => None,
        },
        ListType::Float => if is_float_text(s) {
            Some(ContentModel::Float(s))
        } else {
            None
        },
    }
}

/// What coercing a sequence of token texts elementwise yields: the elements
/// in order, or nothing if any element fails.
pub open spec fn list_coerce(parts: Seq<Seq<char>>, k: ListType) -> Option<Seq<ContentModel>>
    decreases parts.len(),
{
    if parts.len() == 0 {
        Some(Seq::empty())
    } else {
        match scalar_coerce(parts[0], k) {
            Some(v) => match list_coerce(parts.drop_first(), k) {
                Some(rest) => Some(seq![v] + rest),
                None => None,
            },
            None => None,
        }
    }
}

/// What coercing text under a declared type yields. For a list type the text
/// is split at every space and each piece coerced as the element kind.
pub open spec fn coerce(s: Seq<char>, t: DataType) -> Option<ContentModel> {
    match t {
        DataType::Int => scalar_coerce(s, ListType::Int),
        DataType::Uint => scalar_coerce(s, ListType::Uint),
        DataType::String => scalar_coerce(s, ListType::String),
        DataType::Bool => scalar_coerce(s, ListType::Bool),
        DataType::Float => scalar_coerce(s, ListType::Float),
        DataType::List(k) => match list_coerce(space_split(s), k) {
            Some(elems) => Some(ContentModel::List(k, elems)),
            None => None,
        },
    }
}

pub proof fn lemma_scalar_coerce_wf(s: Seq<char>, k: ListType)
    ensures
        scalar_coerce(s, k) matches Some(v) ==> scalar_wf(v) && scalar_has_kind(v, k),
{
}

pub proof fn lemma_list_coerce_wf(parts: Seq<Seq<char>>, k: ListType)
    ensures
        list_coerce(parts, k) matches Some(elems) ==> elems_wf(elems, k),
    decreases parts.len(),
{
    if parts.len() > 0 {
        lemma_list_coerce_wf(parts.drop_first(), k);
        lemma_scalar_coerce_wf(parts[0], k);
        match (scalar_coerce(parts[0], k), list_coerce(parts.drop_first(), k)) {
            (Some(v), Some(rest)) => {
                let all = seq![v] + rest;
                assert forall|i: int|
                    0 <= i < all.len() implies scalar_wf(#[trigger] all[i]) && scalar_has_kind(
                    all[i],
                    k,
                ) by {
                    if i == 0 {
                        assert(all[0] == v);
                    } else {
                        assert(all[i] == rest[i - 1]);
                        assert(scalar_wf(rest[i - 1]) && scalar_has_kind(rest[i - 1], k));
                    }
                }
                assert(elems_wf(all, k));
            },
            _ => {},
        }
    }
}

/// Whatever coercion yields is well-formed and of the declared type.
pub proof fn lemma_coerce_wf(s: Seq<char>, t: DataType)
    ensures
        coerce(s, t) matches Some(v) ==> content_wf(v) && kind_of(v) == t,
{
    match t {
        DataType::List(k) => {
            lemma_list_coerce_wf(space_split(s), k);
        },
        _ => {
            lemma_scalar_coerce_wf(s, scalar_tag_of(t));
        },
    }
}

/// The element kind a scalar declared type corresponds to.
pub open spec fn scalar_tag_of(t: DataType) -> ListType {
    match t {
        DataType::Int => ListType::Int,
        DataType::Uint => ListType::Uint,
        DataType::String => ListType::String,
        DataType::Bool => ListType::Bool,
        DataType::Float => ListType::Float,
        DataType::List(k) => k,
    }
}

/// Appending one more piece coerces elementwise.
pub proof fn lemma_list_coerce_push(parts: Seq<Seq<char>>, k: ListType, p: Seq<char>)
    ensures
        list_coerce(parts.push(p), k) == (match (list_coerce(parts, k), scalar_coerce(p, k)) {
            (Some(elems), Some(v)) => Some(elems.push(v)),
            _ => None::<Seq<ContentModel>>,
        }),
    decreases parts.len(),
{
    if parts.len() == 0 {
        let pp = parts.push(p);
        assert(pp.len() == 1);
        assert(pp[0] == p);
        assert(pp.drop_first() =~= Seq::<Seq<char>>::empty());
        assert(parts =~= Seq::<Seq<char>>::empty());
        assert(list_coerce(parts, k) == Some(Seq::<ContentModel>::empty()));
        match scalar_coerce(p, k) {
            Some(v) => {
                assert(list_coerce(pp, k) == Some(seq![v] + Seq::<ContentModel>::empty()));
                assert(seq![v] + Seq::<ContentModel>::empty()
                    =~= Seq::<ContentModel>::empty().push(v));
            },
            None => {
                assert(list_coerce(pp, k) is None);
            },
        }
    } else {
        lemma_list_coerce_push(parts.drop_first(), k, p);
        assert(parts.push(p)[0] == parts[0]);
        assert(parts.push(p).drop_first() =~= parts.drop_first().push(p));
        match (scalar_coerce(parts[0], k), list_coerce(parts.drop_first(), k), scalar_coerce(
            p,
            k,
        )) {
            (Some(v0), Some(rest), Some(vlast)) => {
                assert(seq![v0] + rest.push(vlast) =~= (seq![v0] + rest).push(vlast));
            },
            _ => {},
        }
    }
}

/// Once a prefix fails to coerce, the whole sequence fails.
pub proof fn lemma_list_coerce_prefix_none(parts: Seq<Seq<char>>, k: ListType, j: int)
    requires
        0 <= j <= parts.len(),
        list_coerce(parts.take(j), k) is None,
    ensures
        list_coerce(parts, k) is None,
    decreases parts.len() - j,
{
    if j == parts.len() {
        assert(parts.take(j) =~= parts);
    } else {
        lemma_list_coerce_push(parts.take(j), k, parts[j]);
        assert(parts.take(j + 1) =~= parts.take(j).push(parts[j]));
        lemma_list_coerce_prefix_none(parts, k, j + 1);
    }
}

/// Coerce one token's text as a scalar of kind `k`.
pub fn coerce_scalar(text: &str, k: &ListType) -> (r: Option<Content>)
    ensures
        (r is Some) == (scalar_coerce(text@, *k) is Some),
        r matches Some(c) ==> scalar_coerce(text@, *k) == Some(c@),
{
    match k {
        ListType::Int => match parse_i32(text) {
            Some(i) => Some(Content::Int(i)),
            None => None,
        },
        ListType::Uint => match parse_u32(text) {
            Some(u) => Some(Content::Uint(u)),
            None => None,
        },
        ListType::String => Some(Content::String(text.to_owned())),
        ListType::Bool => match parse_bool(text) {
            Some(b) => Some(Content::Bool(b)),
            None => None,
        },
        ListType::Float => if check_float(text) {
            Some(Content::Float(text.to_owned()))
        } else {
            None
        },
    }
}

/// Coerce text under a declared type: the executable face of `coerce`.
pub fn coerce_text(text: &str, t: &DataType) -> (r: Option<Content>)
    ensures
        (r is Some) == (coerce(text@, *t) is Some),
        r matches Some(c) ==> coerce(text@, *t) == Some(c@),
{
    match t {
        DataType::Int => coerce_scalar(text, &ListType::Int),
        DataType::Uint => coerce_scalar(text, &ListType::Uint),
        DataType::String => coerce_scalar(text, &ListType::String),
        DataType::Bool => coerce_scalar(text, &ListType::Bool),
        DataType::Float => coerce_scalar(text, &ListType::Float),
        DataType::List(k) => {
            let parts = split_spaces(text);
            let ghost vp = seq_views(parts@);
            let mut list = ContentList::new(*k);
            let plen = parts.len();
            let mut j: usize = 0;
            proof {
                assert(vp.take(0) =~= Seq::<Seq<char>>::empty());
                assert(models_of(list.data@) =~= Seq::<ContentModel>::empty());
            }
            while j < plen
                invariant
                    j <= plen,
                    plen == parts@.len(),
                    vp == seq_views(parts@),
                    vp.len() == plen,
                    vp == space_split(text@),
                    *t == DataType::List(*k),
                    list.data_type == *k,
                    list_coerce(vp.take(j as int), *k) == Some(models_of(list.data@)),
                decreases plen - j,
            {
                let piece = coerce_scalar(parts[j].as_str(), k);
                proof {
                    assert(vp[j as int] == parts@[j as int]@);
                    lemma_list_coerce_push(vp.take(j as int), *k, vp[j as int]);
                    assert(vp.take(j + 1) =~= vp.take(j as int).push(vp[j as int]));
                }
                match piece {
                    Some(c) => {
                        list.data.push(c);
                        proof {
                            assert(models_of(list.data@) =~= models_of(
                                list.data@.drop_last(),
                            ).push(scalar_model(c)));
                            assert(c@ == scalar_model(c)) by {
                                lemma_scalar_coerce_wf(vp[j as int], *k);
                            }
                        }
                    },
                    None => {
                        proof {
                            lemma_list_coerce_prefix_none(vp, *k, j + 1);
                        }
                        return None;
                    },
                }
                j += 1;
            }
            proof {
                assert(vp.take(plen as int) =~= vp);
            }
            Some(Content::List(list))
        },
    }
}

// ---------------------------------------------------------------------------
// Rendering: a value's diagnostic text
// ---------------------------------------------------------------------------

/// The text of a scalar value: its natural decimal or boolean form; float
/// and string text verbatim.
pub open spec fn render_scalar(v: ContentModel) -> Seq<char> {
    match v {
        ContentModel::Int(i) => i32_text(i as int),
        ContentModel::Uint(u) => u32_text(u as nat),
        ContentModel::Text(s) => s,
        ContentModel::Bool(b) => bool_text(b),
        ContentModel::Float(t) => t,
        ContentModel::List(_, _) => seq!['['] + seq![']'],
    }
}

/// The body of a rendered list: every element between single spaces.
pub open spec fn render_elems(elems: Seq<ContentModel>) -> Seq<char>
    decreases elems.len(),
{
    if elems.len() == 0 {
        Seq::empty()
    } else {
        seq![' '] + render_scalar(elems[0]) + seq![' '] + render_elems(elems.drop_first())
    }
}

/// The diagnostic text of a value: scalars in their natural form, lists
/// bracketed with each element spaced.
pub open spec fn render(v: ContentModel) -> Seq<char> {
    match v {
        ContentModel::List(_, elems) => seq!['['] + render_elems(elems) + seq![']'],
        _ => render_scalar(v),
    }
}

pub proof fn lemma_render_elems_push(elems: Seq<ContentModel>, v: ContentModel)
    ensures
        render_elems(elems.push(v)) == render_elems(elems) + seq![' '] + render_scalar(v)
            + seq![' '],
    decreases elems.len(),
{
    if elems.len() == 0 {
        assert(elems.push(v)[0] == v);
        assert(elems.push(v).drop_first() =~= Seq::<ContentModel>::empty());
        assert(render_elems(Seq::<ContentModel>::empty()) == Seq::<char>::empty());
        assert(render_elems(elems.push(v)) == seq![' '] + render_scalar(v) + seq![' ']
            + render_elems(Seq::<ContentModel>::empty()));
        assert(render_elems(elems.push(v)) =~= render_elems(elems) + seq![' '] + render_scalar(
            v,
        ) + seq![' ']);
    } else {
        lemma_render_elems_push(elems.drop_first(), v);
        assert(elems.push(v)[0] == elems[0]);
        assert(elems.push(v).drop_first() =~= elems.drop_first().push(v));
        assert(render_elems(elems.push(v)) =~= render_elems(elems) + seq![' '] + render_scalar(
            v,
        ) + seq![' ']);
    }
}

/// Render one scalar value's text.
fn render_scalar_content(c: &Content) -> (r: String)
    ensures
        r@ == render_scalar(scalar_model(*c)),
{
    match c {
        Content::Int(i) => render_i32(*i),
        Content::Uint(u) => render_u32(*u),
        Content::String(s) => s.clone(),
        Content::Bool(b) => render_bool(*b),
        Content::Float(t) => t.clone(),
        Content::List(_) => {
            let r: String = "[]".to_owned();
            proof {
                reveal_strlit("[]");
                assert(r@ =~= seq!['['] + seq![']']);
            }
            r
        },
    }
}

impl ContentList {
    /// An empty list of the given element kind.
    pub fn new(data_t: ListType) -> (r: ContentList)
        ensures
            r.data_type == data_t,
            r.data@ =~= Seq::<Content>::empty(),
    {
        ContentList { data_type: data_t, data: vec![] }
    }

}

/// A scalar value with the same model. An ill-formed nested list, which the
/// model collapses to an empty list, is copied as that empty list.
fn duplicate_scalar(c: &Content) -> (r: Content)
    ensures
        scalar_model(r) == scalar_model(*c),
{
    match c {
        Content::Int(i) => Content::Int(*i),
        Content::Uint(u) => Content::Uint(*u),
        Content::String(s) => Content::String(s.clone()),
        Content::Bool(b) => Content::Bool(*b),
        Content::Float(t) => Content::Float(t.clone()),
        Content::List(l) => Content::List(ContentList { data_type: l.data_type, data: Vec::new() }),
    }
}

impl Content {
    /// A value equal to this one.
    pub fn duplicate(&self) -> (r: Content)
        ensures
            r@ == self@,
    {
        match self {
            Content::Int(i) => Content::Int(*i),
            Content::Uint(u) => Content::Uint(*u),
            Content::String(s) => Content::String(s.clone()),
            Content::Bool(b) => Content::Bool(*b),
            Content::Float(t) => Content::Float(t.clone()),
            Content::List(l) => {
                let mut data: Vec<Content> = Vec::new();
                let dlen = l.data.len();
                let mut j: usize = 0;
                while j < dlen
                    invariant
                        j <= dlen,
                        dlen == l.data@.len(),
                        data@.len() == j,
                        forall|i: int|
                            0 <= i < j ==> scalar_model(#[trigger] data@[i]) == scalar_model(
                                l.data@[i],
                            ),
                    decreases dlen - j,
                {
                    data.push(duplicate_scalar(&l.data[j]));
                    j += 1;
                }
                let r = Content::List(ContentList { data_type: l.data_type, data });
                proof {
                    assert(models_of(r->List_0.data@) =~= models_of(l.data@));
                }
                r
            },
        }
    }

    /// The diagnostic text of this value.
    pub fn get_value_str(&self) -> (r: String)
        ensures
            r@ == render(self@),
    {
        match self {
            Content::List(l) => {
                let mut r: String = "[".to_owned();
                proof {
                    reveal_strlit("[");
                    assert("["@ =~= seq!['[']);
                    assert(models_of(l.data@).take(0) =~= Seq::<ContentModel>::empty());
                    assert(r@ =~= seq!['['] + render_elems(models_of(l.data@).take(0)));
                }
                let dlen = l.data.len();
                let mut j: usize = 0;
                while j < dlen
                    invariant
                        j <= dlen,
                        dlen == l.data@.len(),
                        r@ == seq!['['] + render_elems(models_of(l.data@).take(j as int)),
                    decreases dlen - j,
                {
                    r.append(" ");
                    r.append(render_scalar_content(&l.data[j]).as_str());
                    r.append(" ");
                    proof {
                        reveal_strlit(" ");
                        assert(" "@ =~= seq![' ']);
                        let ms = models_of(l.data@);
                        lemma_render_elems_push(ms.take(j as int), ms[j as int]);
                        assert(ms.take(j + 1) =~= ms.take(j as int).push(ms[j as int]));
                        assert(r@ =~= seq!['['] + render_elems(ms.take(j + 1)));
                    }
                    j += 1;
                }
                r.append("]");
                proof {
                    reveal_strlit("]");
                    assert("]"@ =~= seq![']']);
                    assert(models_of(l.data@).take(dlen as int) =~= models_of(l.data@));
                    assert(r@ =~= render(self@));
                }
                r
            },
            _ => {
                let r = render_scalar_content(self);
                proof {
                    assert(scalar_model(*self) == self@);
                    assert(render_scalar(self@) == render(self@));
                }
                r
            },
        }
    }

    /// Type-directed extraction of the contained value.
    pub fn get_value<T: ExtractFromContents>(&self) -> (r: Option<T>)
        requires
            content_wf(self@),
        ensures
            T::extract_rel(self@, r),
    {
        T::extract(self)
    }

    /// The structural kind of this value.
    pub fn get_type(&self) -> (t: DataType)
        ensures
            t == kind_of(self@),
    {
        match self {
            Content::Int(_) => DataType::Int,
            Content::Uint(_) => DataType::Uint,
            Content::String(_) => DataType::String,
            Content::Bool(_) => DataType::Bool,
            Content::Float(_) => DataType::Float,
            Content::List(l) => DataType::List(l.data_type),
        }
    }
}

// ---------------------------------------------------------------------------
// Extraction
// ---------------------------------------------------------------------------

/// Type-directed extraction from a captured value: the contained value comes
/// out only if the requested type matches the value's runtime kind; for a
/// requested vector, only if every element extracts (no partial results).
pub trait ExtractFromContents: Sized {
    /// Which result extraction yields on a given model value.
    spec fn extract_rel(v: ContentModel, r: Option<Self>) -> bool;

    /// The declared types whose well-formed values this type extracts.
    spec fn reads(t: DataType) -> bool;

    /// A well-formed value of a declared type this type reads never fails to
    /// extract.
    proof fn lemma_reads_extracts(v: ContentModel, t: DataType)
        requires
            content_wf(v),
            kind_of(v) == t,
            Self::reads(t),
        ensures
            !Self::extract_rel(v, Option::<Self>::None),
    ;

    fn extract(object: &Content) -> (r: Option<Self>)
        requires
            content_wf(object@),
        ensures
            Self::extract_rel(object@, r),
    ;
}

impl ExtractFromContents for i32 {
    open spec fn extract_rel(v: ContentModel, r: Option<i32>) -> bool {
        r == (match v {
            ContentModel::Int(i) => Some(i),
            _ => None::<i32>,
        })
    }

    open spec fn reads(t: DataType) -> bool {
        t == DataType::Int
    }

    proof fn lemma_reads_extracts(v: ContentModel, t: DataType) {
    }

    fn extract(object: &Content) -> (r: Option<i32>) {
        match object {
            Content::Int(i) => Some(*i),
            _ => None,
        }
    }
}

impl ExtractFromContents for u32 {
    open spec fn extract_rel(v: ContentModel, r: Option<u32>) -> bool {
        r == (match v {
            ContentModel::Uint(u) => Some(u),
            _ => None::<u32>,
        })
    }

    open spec fn reads(t: DataType) -> bool {
        t == DataType::Uint
    }

    proof fn lemma_reads_extracts(v: ContentModel, t: DataType) {
    }

    fn extract(object: &Content) -> (r: Option<u32>) {
        match object {
            Content::Uint(u) => Some(*u),
            _ => None,
        }
    }
}

impl ExtractFromContents for bool {
    open spec fn extract_rel(v: ContentModel, r: Option<bool>) -> bool {
        r == (match v {
            ContentModel::Bool(b) => Some(b),
            _ => None::<bool>,
        })
    }

    open spec fn reads(t: DataType) -> bool {
        t == DataType::Bool
    }

    proof fn lemma_reads_extracts(v: ContentModel, t: DataType) {
    }

    fn extract(object: &Content) -> (r: Option<bool>) {
        match object {
            Content::Bool(b) => Some(*b),
            _ => None,
        }
    }
}

impl ExtractFromContents for String {
    open spec fn extract_rel(v: ContentModel, r: Option<String>) -> bool {
        match v {
            ContentModel::Text(s) => r matches Some(x) && x@ == s,
            _ => r is None,
        }
    }

    open spec fn reads(t: DataType) -> bool {
        t == DataType::String
    }

    proof fn lemma_reads_extracts(v: ContentModel, t: DataType) {
    }

    fn extract(object: &Content) -> (r: Option<String>) {
        match object {
            Content::String(s) => Some(s.clone()),
            _ => None,
        }
    }
}

/// Every element extracts as a `T`, elementwise in order.
pub open spec fn all_elems_extract<T: ExtractFromContents>(
    elems: Seq<ContentModel>,
    out: Seq<T>,
) -> bool {
    out.len() == elems.len() && forall|i: int|
        0 <= i < elems.len() ==> T::extract_rel(#[trigger] elems[i], Some(out[i]))
}

/// Some element fails to extract as a `T`.
pub open spec fn some_elem_fails<T: ExtractFromContents>(elems: Seq<ContentModel>) -> bool {
    exists|i: int| 0 <= i < elems.len() && T::extract_rel(#[trigger] elems[i], Option::<T>::None)
}

impl<T: ExtractFromContents> ExtractFromContents for Vec<T> {
    open spec fn extract_rel(v: ContentModel, r: Option<Vec<T>>) -> bool {
        match v {
            ContentModel::List(_, elems) => match r {
                Some(out) => all_elems_extract::<T>(elems, out@),
                None => some_elem_fails::<T>(elems),
            },
            _ => r is None,
        }
    }

    open spec fn reads(t: DataType) -> bool {
        t matches DataType::List(k) && T::reads(elem_type(k))
    }

    proof fn lemma_reads_extracts(v: ContentModel, t: DataType) {
        match v {
            ContentModel::List(k, elems) => {
                if some_elem_fails::<T>(elems) {
                    let i = choose|i: int|
                        0 <= i < elems.len() && T::extract_rel(
                            #[trigger] elems[i],
                            Option::<T>::None,
                        );
                    assert(scalar_wf(elems[i]) && scalar_has_kind(elems[i], k));
                    assert(content_wf(elems[i]));
                    assert(kind_of(elems[i]) == elem_type(k));
                    T::lemma_reads_extracts(elems[i], elem_type(k));
                }
            },
            _ => {},
        }
    }

    fn extract(object: &Content) -> (r: Option<Vec<T>>) {
        match object {
            Content::List(l) => {
                let ghost elems = models_of(l.data@);
                proof {
                    assert(object@ == ContentModel::List(l.data_type, elems));
                    assert(elems_wf(elems, l.data_type));
                }
                let mut out: Vec<T> = Vec::new();
                let dlen = l.data.len();
                let mut j: usize = 0;
                while j < dlen
                    invariant
                        j <= dlen,
                        dlen == l.data@.len(),
                        elems == models_of(l.data@),
                        elems.len() == dlen,
                        object@ == ContentModel::List(l.data_type, elems),
                        elems_wf(elems, l.data_type),
                        out@.len() == j,
                        forall|i: int|
                            0 <= i < j ==> T::extract_rel(#[trigger] elems[i], Some(out@[i])),
                    decreases dlen - j,
                {
                    proof {
                        assert(scalar_wf(elems[j as int]));
                        assert(!(l.data@[j as int] is List));
                        assert(l.data@[j as int]@ == scalar_model(l.data@[j as int]));
                        assert(content_wf(l.data@[j as int]@));
                    }
                    match T::extract(&l.data[j]) {
                        Some(v) => {
                            out.push(v);
                        },
                        None => {
                            assert(T::extract_rel(elems[j as int], Option::<T>::None));
                            assert(some_elem_fails::<T>(elems));
                            return None;
                        },
                    }
                    j += 1;
                }
                assert(all_elems_extract::<T>(elems, out@));
                Some(out)
            },
            _ => None,
        }
    }
}

// ---------------------------------------------------------------------------
// The scalar round trip
// ---------------------------------------------------------------------------

/// Coercing the rendered text of a well-formed scalar value under the
/// value's own kind yields the value back.
pub proof fn lemma_scalar_round_trip(v: ContentModel)
    requires
        content_wf(v),
        !(v is List),
    ensures
        coerce(render(v), kind_of(v)) == Some(v),
{
    match v {
        ContentModel::Int(i) => {
            lemma_i32_round_trip(i);
        },
        ContentModel::Uint(u) => {
            lemma_u32_round_trip(u);
        },
        ContentModel::Bool(b) => {
            reveal_strlit("true");
            reveal_strlit("false");
            assert("true"@.len() == 4);
            assert("false"@.len() == 5);
        },
        _ => {},
    }
}

} // verus!
