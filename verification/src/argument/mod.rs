//! Argument descriptors: one declared argument's identity, declared type and
//! kind, modifiers, and its mutable parse state.

use vstd::prelude::*;

pub mod contents;

use contents::Content;
use contents::ContentModel;
use contents::DataType;
use crate::text::seq_views;
use crate::text::str_eq;
use crate::text::strip_dashes;

verus! {

/// The kind of a declared argument, fixed at registration.
#[derive(Debug, Clone, Copy, PartialEq, Eq, Structural)]
pub enum ArgumentType {
    Positional,
    Optional,
    Flag,
}

/// A registration modifier: flag polarity, requiredness, or the exact number
/// of raw tokens an optional argument's value spans.
#[derive(Debug, Clone, Copy, PartialEq, Eq, Structural)]
pub enum ArgumentOption {
    StoreTrue,
    StoreFalse,
    Necessary,
    NArgs(usize),
}

/// One declared argument: identity, declared type and kind, modifiers, and
/// parse state. Only the matching pass mutates the parse state.
#[derive(Debug)]
pub struct Argument {
    pub name: String,
    pub cl_identifiers: Vec<String>,
    pub data_type: DataType,
    data: Option<Content>,
    pub options: Vec<ArgumentOption>,
    parsed: bool,
    index: i32,
    arg_type: ArgumentType,
    pub n_args: usize,
}

/// The mathematical model of a descriptor.
pub struct ArgumentModel {
    pub name: Seq<char>,
    pub ids: Seq<Seq<char>>,
    pub data_type: DataType,
    pub data: Option<ContentModel>,
    pub options: Seq<ArgumentOption>,
    pub parsed: bool,
    pub index: i32,
    pub arg_type: ArgumentType,
    pub n_args: usize,
}

impl View for Argument {
    type V = ArgumentModel;

    closed spec fn view(&self) -> ArgumentModel {
        ArgumentModel {
            name: self.name@,
            ids: seq_views(self.cl_identifiers@),
            data_type: self.data_type,
            data: match self.data {
                Some(c) => Some(c@),
                None => None,
            },
            options: self.options@,
            parsed: self.parsed,
            index: self.index,
            arg_type: self.arg_type,
            n_args: self.n_args,
        }
    }
}

/// The arity an options list implies: its last positive `NArgs`, else 1.
pub open spec fn n_args_of(opts: Seq<ArgumentOption>) -> usize
    decreases opts.len(),
{
    if opts.len() == 0 {
        1
    } else {
        match opts.last() {
            ArgumentOption::NArgs(i) => if i > 0 {
                i
            } else {
                n_args_of(opts.drop_last())
            },
            _ => n_args_of(opts.drop_last()),
        }
    }
}

/// What kind a name declares: a dashed name is a flag (boolean with a store
/// modifier) or an optional; an undashed name is positional; an empty name
/// is invalid.
pub open spec fn kind_of_name(
    name: Seq<char>,
    opts: Seq<ArgumentOption>,
    t: DataType,
) -> Option<ArgumentType> {
    if name.len() == 0 {
        None
    } else if name[0] == '-' {
        if t == DataType::Bool && (opts.contains(ArgumentOption::StoreFalse) || opts.contains(
            ArgumentOption::StoreTrue,
        )) {
            Some(ArgumentType::Flag)
        } else {
            Some(ArgumentType::Optional)
        }
    } else {
        Some(ArgumentType::Positional)
    }
}

/// Whether an options list holds the given modifier.
pub(crate) fn opts_contain(opts: &Vec<ArgumentOption>, option: ArgumentOption) -> (r: bool)
    ensures
        r == opts@.contains(option),
{
    let olen = opts.len();
    let mut j: usize = 0;
    while j < olen
        invariant
            j <= olen,
            olen == opts@.len(),
            forall|i: int| 0 <= i < j ==> opts@[i] != option,
        decreases olen - j,
    {
        if opts[j] == option {
            return true;
        }
        j += 1;
    }
    false
}

/// A copy of a vector of owned strings.
fn dup_strings(v: &Vec<String>) -> (r: Vec<String>)
    ensures
        r@ == v@,
{
    let vlen = v.len();
    let mut r: Vec<String> = Vec::new();
    let mut j: usize = 0;
    while j < vlen
        invariant
            j <= vlen,
            vlen == v@.len(),
            r@ =~= v@.take(j as int),
        decreases vlen - j,
    {
        r.push(v[j].clone());
        proof {
            assert(r@ =~= v@.take(j + 1));
        }
        j += 1;
    }
    proof {
        assert(v@.take(vlen as int) =~= v@);
    }
    r
}

/// A copy of an options list.
fn dup_options(v: &Vec<ArgumentOption>) -> (r: Vec<ArgumentOption>)
    ensures
        r@ == v@,
{
    let vlen = v.len();
    let mut r: Vec<ArgumentOption> = Vec::new();
    let mut j: usize = 0;
    while j < vlen
        invariant
            j <= vlen,
            vlen == v@.len(),
            r@ =~= v@.take(j as int),
        decreases vlen - j,
    {
        r.push(v[j]);
        proof {
            assert(r@ =~= v@.take(j + 1));
        }
        j += 1;
    }
    proof {
        assert(v@.take(vlen as int) =~= v@);
    }
    r
}

impl Argument {
    /// The one constructor every kind goes through.
    fn new(
        name_: &str,
        cl_identifiers_: Vec<String>,
        data_type_: DataType,
        options_: Option<Vec<ArgumentOption>>,
        index_: i32,
        default_val: Option<Content>,
        arg_type_: ArgumentType,
        n_args_: usize,
    ) -> (r: Argument)
        ensures
            r@.name == name_@,
            r@.ids == seq_views(cl_identifiers_@),
            r@.data_type == data_type_,
            r@.data == (match default_val {
                Some(c) => Some(c@),
                None => None::<ContentModel>,
            }),
            r@.options == (match options_ {
                Some(o) => o@,
                None => Seq::<ArgumentOption>::empty(),
            }),
            r@.parsed == false,
            r@.index == index_,
            r@.arg_type == arg_type_,
            r@.n_args == n_args_,
    {
        let options: Vec<ArgumentOption> = match options_ {
            Some(o) => o,
            None => Vec::new(),
        };
        Argument {
            name: name_.to_owned(),
            cl_identifiers: cl_identifiers_,
            data_type: data_type_,
            data: default_val,
            options,
            parsed: false,
            index: index_,
            arg_type: arg_type_,
            n_args: n_args_,
        }
    }

    /// An optional argument: matched by identifier, no positional slot.
    pub fn new_optional(
        name_: &str,
        cl_identifiers_: Vec<String>,
        data_type_: DataType,
        options_: Option<Vec<ArgumentOption>>,
        default_val: Option<Content>,
        n_args_: usize,
    ) -> (r: Argument)
        ensures
            r@.name == name_@,
            r@.ids == seq_views(cl_identifiers_@),
            r@.data_type == data_type_,
            r@.data == (match default_val {
                Some(c) => Some(c@),
                None => None::<ContentModel>,
            }),
            r@.options == (match options_ {
                Some(o) => o@,
                None => Seq::<ArgumentOption>::empty(),
            }),
            r@.parsed == false,
            r@.index == -1,
            r@.arg_type == ArgumentType::Optional,
            r@.n_args == n_args_,
    {
        Argument::new(
            name_,
            cl_identifiers_,
            data_type_,
            options_,
            -1,
            default_val,
            ArgumentType::Optional,
            n_args_,
        )
    }

    /// A positional argument: matched by its token slot, never by identifier.
    pub fn new_positional(
        name_: &str,
        cl_identifiers_: Vec<String>,
        data_type_: DataType,
        options_: Option<Vec<ArgumentOption>>,
        index_: i32,
    ) -> (r: Argument)
        ensures
            r@.name == name_@,
            r@.ids == seq_views(cl_identifiers_@),
            r@.data_type == data_type_,
            r@.data is None,
            r@.options == (match options_ {
                Some(o) => o@,
                None => Seq::<ArgumentOption>::empty(),
            }),
            r@.parsed == false,
            r@.index == index_,
            r@.arg_type == ArgumentType::Positional,
            r@.n_args == 1,
    {
        Argument::new(
            name_,
            cl_identifiers_,
            data_type_,
            options_,
            index_,
            None,
            ArgumentType::Positional,
            1,
        )
    }

    /// A boolean flag: matched by identifier, consumes no value tokens.
    pub fn new_flag(
        name_: &str,
        cl_identifiers_: Vec<String>,
        options_: Option<Vec<ArgumentOption>>,
        default_val: Option<Content>,
    ) -> (r: Argument)
        ensures
            r@.name == name_@,
            r@.ids == seq_views(cl_identifiers_@),
            r@.data_type == DataType::Bool,
            r@.data == (match default_val {
                Some(c) => Some(c@),
                None => None::<ContentModel>,
            }),
            r@.options == (match options_ {
                Some(o) => o@,
                None => Seq::<ArgumentOption>::empty(),
            }),
            r@.parsed == false,
            r@.index == -1,
            r@.arg_type == ArgumentType::Flag,
            r@.n_args == 1,
    {
        Argument::new(
            name_,
            cl_identifiers_,
            DataType::Bool,
            options_,
            -1,
            default_val,
            ArgumentType::Flag,
            1,
        )
    }

    /// The captured value, if any.
    pub fn get_data(&self) -> (r: Option<Content>)
        ensures
            (r is Some) == (self@.data is Some),
            r matches Some(c) ==> self@.data == Some(c@),
    {
        match &self.data {
            Some(c) => Some(c.duplicate()),
            None => None,
        }
    }

    /// Record a value. Fails without mutation once the descriptor is parsed,
    /// so re-invoking a parse on it is a no-op.
    pub fn set_data(&mut self, data: Content) -> (r: bool)
        ensures
            old(self)@.parsed ==> r == false && final(self)@ == old(self)@,
            !old(self)@.parsed ==> r == true && final(self)@ == (ArgumentModel {
                data: Some(data@),
                ..old(self)@
            }),
    {
        if self.is_parsed() {
            return false;
        }
        self.data = Some(data);
        true
    }

    /// Whether an options list holds the given modifier.
    pub fn has_option(&self, option: ArgumentOption) -> (r: bool)
        ensures
            r == self@.options.contains(option),
    {
        opts_contain(&self.options, option)
    }

    pub fn is_parsed(&self) -> (r: bool)
        ensures
            r == self@.parsed,
    {
        self.parsed
    }

    /// Mark the descriptor parsed; idempotent.
    pub fn set_parsed(&mut self)
        ensures
            final(self)@ == (ArgumentModel { parsed: true, ..old(self)@ }),
    {
        self.parsed = true;
    }

    /// The positional token slot; `-1` for non-positional arguments.
    pub fn get_index(&self) -> (r: i32)
        ensures
            r == self@.index,
    {
        self.index
    }

    /// The arity an options list implies: its last positive `NArgs`, else 1.
    pub fn get_n_args(opts: &Vec<ArgumentOption>) -> (r: usize)
        ensures
            r == n_args_of(opts@),
    {
        let mut ret: usize = 1;
        let olen = opts.len();
        let mut j: usize = 0;
        while j < olen
            invariant
                j <= olen,
                olen == opts@.len(),
                ret == n_args_of(opts@.take(j as int)),
            decreases olen - j,
        {
            match opts[j] {
                ArgumentOption::NArgs(i) => {
                    if i > 0 {
                        ret = i;
                    }
                },
                _ => {},
            }
            proof {
                assert(opts@.take(j + 1).drop_last() =~= opts@.take(j as int));
                assert(opts@.take(j + 1).last() == opts@[j as int]);
            }
            j += 1;
        }
        proof {
            assert(opts@.take(olen as int) =~= opts@);
        }
        ret
    }

    /// Infer the kind of an argument from its name, modifiers and type.
    pub fn guess_type(name: &str, options: &Vec<ArgumentOption>, data_type_: &DataType) -> (r:
        Option<ArgumentType>)
        ensures
            r == kind_of_name(name@, options@, *data_type_),
    {
        let len = name.unicode_len();
        if len == 0 {
            return None;
        }
        if name.get_char(0) == '-' {
            if *data_type_ == DataType::Bool && (opts_contain(options, ArgumentOption::StoreFalse)
                || opts_contain(options, ArgumentOption::StoreTrue)) {
                Some(ArgumentType::Flag)
            } else {
                Some(ArgumentType::Optional)
            }
        } else {
            Some(ArgumentType::Positional)
        }
    }

    /// The declared type of this argument's value.
    pub fn get_data_type(&self) -> (r: DataType)
        ensures
            r == self@.data_type,
    {
        self.data_type
    }

    /// The canonical name of this argument.
    pub fn get_name(&self) -> (r: String)
        ensures
            r@ == self@.name,
    {
        self.name.clone()
    }

    /// How many raw tokens this argument's value spans.
    pub fn arity(&self) -> (r: usize)
        ensures
            r == self@.n_args,
    {
        self.n_args
    }

    /// The kind this descriptor was registered with.
    pub fn get_type(&self) -> (r: ArgumentType)
        ensures
            r == self@.arg_type,
    {
        self.arg_type
    }

    /// The canonical name: the given name with every leading dash removed;
    /// nothing for an empty name.
    pub fn parse_name(name: &str) -> (r: Option<String>)
        ensures
            (r is Some) == (name@.len() > 0),
            r matches Some(x) ==> x@ == strip_dashes(name@),
    {
        let len = name.unicode_len();
        if len == 0 {
            return None;
        }
        let mut i: usize = 0;
        proof {
            assert(name@.subrange(0, len as int) =~= name@);
        }
        while i < len
            invariant
                i <= len,
                len == name@.len(),
                strip_dashes(name@) == strip_dashes(name@.subrange(i as int, len as int)),
            ensures
                i <= len,
                len == name@.len(),
                strip_dashes(name@) == strip_dashes(name@.subrange(i as int, len as int)),
                i < len ==> name@[i as int] != '-',
            decreases len - i,
        {
            if name.get_char(i) != '-' {
                break ;
            }
            proof {
                let cur = name@.subrange(i as int, len as int);
                assert(cur[0] == '-');
                assert(cur.subrange(1, cur.len() as int) =~= name@.subrange(i + 1, len as int));
            }
            i += 1;
        }
        let rest = name.substring_char(i, len);
        proof {
            let cur = name@.subrange(i as int, len as int);
            if i < len {
                assert(cur[0] != '-');
            }
            assert(strip_dashes(cur) == cur);
        }
        Some(rest.to_owned())
    }

    /// Exact membership of a token's text among the call identifiers.
    pub fn has_identifier(&self, id: &str) -> (r: bool)
        ensures
            r == self@.ids.contains(id@),
    {
        let ilen = self.cl_identifiers.len();
        let mut j: usize = 0;
        while j < ilen
            invariant
                j <= ilen,
                ilen == self.cl_identifiers@.len(),
                forall|i: int|
                    0 <= i < j ==> seq_views(self.cl_identifiers@)[i] != id@,
            decreases ilen - j,
        {
            if str_eq(self.cl_identifiers[j].as_str(), id) {
                proof {
                    assert(seq_views(self.cl_identifiers@)[j as int] == id@);
                }
                return true;
            }
            proof {
                assert(seq_views(self.cl_identifiers@)[j as int] == self.cl_identifiers@[
                    j as int
                ]@);
            }
            j += 1;
        }
        false
    }

    /// A descriptor equal to this one, sharing no state with it.
    pub fn duplicate(&self) -> (r: Argument)
        ensures
            r@ == self@,
    {
        let r = Argument {
            name: self.name.clone(),
            cl_identifiers: dup_strings(&self.cl_identifiers),
            data_type: self.data_type,
            data: match &self.data {
                Some(c) => Some(c.duplicate()),
                None => None,
            },
            options: dup_options(&self.options),
            parsed: self.parsed,
            index: self.index,
            arg_type: self.arg_type,
            n_args: self.n_args,
        };
        r
    }
}

} // verus!
