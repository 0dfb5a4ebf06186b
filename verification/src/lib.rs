//! A declarative command-line argument parser.
//!
//! Callers register argument descriptors (positional, optional, flag, and
//! typed lists); a single matching pass walks a token stream once per
//! descriptor, coerces token text into typed values, and tracks token
//! consumption in a shared bitmap so that no token is claimed twice.

use vstd::prelude::*;

mod argument;
mod text;

pub use argument::contents::coerce_text;
pub use argument::contents::Content;
pub use argument::contents::ContentList;
pub use argument::contents::DataType;
pub use argument::contents::ExtractFromContents;
pub use argument::contents::ListType;
pub use argument::Argument;
pub use argument::ArgumentModel;
pub use argument::ArgumentOption;
pub use argument::ArgumentType;

use argument::contents::coerce;
use argument::contents::content_wf;
use argument::contents::kind_of;
use argument::contents::lemma_coerce_wf;
use argument::contents::ContentModel;
use argument::kind_of_name;
use argument::n_args_of;
use argument::opts_contain;
use text::concat_tokens;
use text::join_spaces;
use text::seq_views;
use text::space_split;
use text::split_spaces;
use text::str_eq;
use text::strip_dashes;

verus! {

/// A parse-time structural violation. The original run is not recoverable:
/// callers that mirror a process-aborting parser report the error and stop.
#[derive(Debug)]
pub enum ParseError {
    /// A `Necessary` descriptor ended the pass unparsed; holds its name.
    MissingRequired(String),
    /// An optional argument's identifier was matched with fewer tokens
    /// remaining than its arity; holds the argument's name.
    ArityUnderflow(String),
}

/// A parser owns the registered descriptors (registration order is matching
/// order) and the cursor that assigns positional token slots.
pub struct ArgumentParser {
    arguments: Vec<Argument>,
    positional_cursor: i32,
}

/// The mathematical model of a parser.
pub struct ParserModel {
    pub args: Seq<ArgumentModel>,
    pub positional_cursor: i32,
}

/// The models of a sequence of descriptors.
pub open spec fn arg_views(v: Seq<Argument>) -> Seq<ArgumentModel> {
    v.map_values(|a: Argument| a@)
}

impl View for ArgumentParser {
    type V = ParserModel;

    closed spec fn view(&self) -> ParserModel {
        ParserModel { args: arg_views(self.arguments@), positional_cursor: self.positional_cursor }
    }
}

// ---------------------------------------------------------------------------
// The matching step, as a function
// ---------------------------------------------------------------------------

/// The least token index at or after `from` holding an unconsumed token
/// whose text is one of the identifiers; nothing if there is none.
pub open spec fn first_id_match(
    tokens: Seq<Seq<char>>,
    used: Seq<bool>,
    ids: Seq<Seq<char>>,
    from: int,
) -> Option<int>
    decreases tokens.len() - from,
{
    if from >= tokens.len() {
        None
    } else if !used[from] && ids.contains(tokens[from]) {
        Some(from)
    } else {
        first_id_match(tokens, used, ids, from + 1)
    }
}

/// The bitmap with entries `lo..=hi` consumed.
pub open spec fn mark_range(used: Seq<bool>, lo: int, hi: int) -> Seq<bool> {
    Seq::new(used.len(), |j: int| if lo <= j <= hi { true } else { used[j] })
}

/// What one matching step leaves behind.
pub enum StepOutcome {
    /// The descriptor after the step and the bitmap after it.
    Done { arg: ArgumentModel, used: Seq<bool> },
    /// The identifier was matched with too few tokens remaining.
    ArityError,
    /// The descriptor ended the scan unparsed though it is required.
    MissingError,
}

/// The end of a scan that matched nothing: fatal if the descriptor is
/// required, otherwise descriptor and bitmap are left as they were.
pub open spec fn unmatched(a: ArgumentModel, used: Seq<bool>) -> StepOutcome {
    if a.options.contains(ArgumentOption::Necessary) {
        StepOutcome::MissingError
    } else {
        StepOutcome::Done { arg: a, used }
    }
}

/// One matching step: how a single descriptor matches the token stream.
///
/// An already-parsed descriptor is left untouched. A positional descriptor
/// matches exactly the token at its assigned slot, if unconsumed; a flag
/// consumes the first unconsumed token equal to one of its identifiers; an
/// optional argument consumes its identifier token plus the `n_args` tokens
/// after it, joined with single spaces and coerced under the declared type.
/// A failed coercion leaves the descriptor unparsed and consumes nothing.
pub open spec fn match_step(tokens: Seq<Seq<char>>, used: Seq<bool>, a: ArgumentModel) -> StepOutcome {
    if a.parsed {
        StepOutcome::Done { arg: a, used }
    } else {
        match a.arg_type {
            ArgumentType::Positional => {
                let i = a.index as int;
                if 1 <= i < tokens.len() && !used[i] {
                    match coerce(tokens[i], a.data_type) {
                        Some(v) => StepOutcome::Done {
                            arg: (ArgumentModel { data: Some(v), parsed: true, ..a }),
                            used: used.update(i, true),
                        },
                        None => unmatched(a, used),
                    }
                } else {
                    unmatched(a, used)
                }
            },
            ArgumentType::Flag => match first_id_match(tokens, used, a.ids, 1) {
                Some(i) => StepOutcome::Done {
                    arg: (ArgumentModel {
                        data: Some(
                            ContentModel::Bool(a.options.contains(ArgumentOption::StoreTrue)),
                        ),
                        parsed: true,
                        ..a
                    }),
                    used: used.update(i, true),
                },
                None => unmatched(a, used),
            },
            ArgumentType::Optional => match first_id_match(tokens, used, a.ids, 1) {
                Some(i) => {
                    let n = a.n_args as int;
                    if tokens.len() - i - 1 < n {
                        StepOutcome::ArityError
                    } else {
                        match coerce(
                            join_spaces(tokens.subrange(i + 1, i + 1 + n)),
                            a.data_type,
                        ) {
                            Some(v) => StepOutcome::Done {
                                arg: (ArgumentModel { data: Some(v), parsed: true, ..a }),
                                used: mark_range(used, i, i + n),
                            },
                            None => unmatched(a, used),
                        }
                    }
                },
                None => unmatched(a, used),
            },
        }
    }
}

// ---------------------------------------------------------------------------
// Executable matching
// ---------------------------------------------------------------------------

/// An unconsumed bitmap: one entry per token, all false.
pub open spec fn fresh_bitmap(n: nat) -> Seq<bool> {
    Seq::new(n, |i: int| false)
}

/// A fresh consumption bitmap: one entry per token, all unconsumed.
fn make_bitmap(n: usize) -> (r: Vec<bool>)
    ensures
        r@ == fresh_bitmap(n as nat),
{
    let mut r: Vec<bool> = Vec::new();
    let mut j: usize = 0;
    while j < n
        invariant
            j <= n,
            r@.len() == j,
            forall|i: int| 0 <= i < j ==> r@[i] == false,
        decreases n - j,
    {
        r.push(false);
        j += 1;
    }
    proof {
        assert(r@ =~= fresh_bitmap(n as nat));
    }
    r
}

/// Scan for the first unconsumed token equal to one of the descriptor's
/// identifiers, starting after the program-name token.
fn find_id_match(tokens: &Vec<String>, used: &Vec<bool>, argument: &Argument) -> (r: Option<
    usize,
>)
    requires
        used@.len() == tokens@.len(),
    ensures
        match first_id_match(seq_views(tokens@), used@, argument@.ids, 1) {
            Some(i) => r matches Some(x) && x as int == i,
            None => r is None,
        },
{
    let ghost toks = seq_views(tokens@);
    let tlen = tokens.len();
    let mut i: usize = 1;
    while i < tlen
        invariant
            1 <= i <= tlen || (tlen == 0 && i == 1),
            tlen == tokens@.len(),
            used@.len() == tokens@.len(),
            toks == seq_views(tokens@),
            first_id_match(toks, used@, argument@.ids, 1) == first_id_match(
                toks,
                used@,
                argument@.ids,
                i as int,
            ),
        decreases tlen - i,
    {
        let is_id = argument.has_identifier(tokens[i].as_str());
        proof {
            assert(toks[i as int] == tokens@[i as int]@);
        }
        if is_id && !used[i] {
            return Some(i);
        }
        i += 1;
    }
    None
}

impl ArgumentParser {
    /// A fresh parser: no descriptors, positional slots start at token 1
    /// (token 0 is the program name).
    pub fn new() -> (r: ArgumentParser)
        ensures
            r@.args =~= Seq::<ArgumentModel>::empty(),
            r@.positional_cursor == 1,
            parser_wf(r@),
    {
        let r = ArgumentParser { arguments: vec![], positional_cursor: 1 };
        proof {
            assert(r@.args =~= Seq::<ArgumentModel>::empty());
        }
        r
    }

    /// Match one descriptor against the token stream, as `match_step` says:
    /// at most one match per descriptor per pass, recorded in the shared
    /// consumption bitmap.
    fn parse_arg(
        &mut self,
        cl_arguments: &Vec<String>,
        used_cl_args: &mut Vec<bool>,
        argument_ix: usize,
    ) -> (r: Result<(), ParseError>)
        requires
            argument_ix < old(self)@.args.len(),
            old(used_cl_args)@.len() == cl_arguments@.len(),
            old(self)@.args[argument_ix as int].n_args >= 1,
        ensures
            final(self)@.positional_cursor == old(self)@.positional_cursor,
            final(self)@.args.len() == old(self)@.args.len(),
            final(used_cl_args)@.len() == old(used_cl_args)@.len(),
            forall|m: int|
                0 <= m < old(self)@.args.len() && m != argument_ix ==> final(self)@.args[m]
                    == old(self)@.args[m],
            match match_step(
                seq_views(cl_arguments@),
                old(used_cl_args)@,
                old(self)@.args[argument_ix as int],
            ) {
                StepOutcome::Done { arg, used } => r is Ok && final(self)@.args[argument_ix as int]
                    == arg && final(used_cl_args)@ == used,
                StepOutcome::ArityError => (r matches Err(e) && e matches
                    ParseError::ArityUnderflow(n) && n@ == old(self)@.args[
                    argument_ix as int
                ].name) && final(self)@.args[argument_ix as int] == old(self)@.args[
                    argument_ix as int
                ] && final(used_cl_args)@ == old(used_cl_args)@,
                StepOutcome::MissingError => (r matches Err(e) && e matches
                    ParseError::MissingRequired(n) && n@ == old(self)@.args[
                    argument_ix as int
                ].name) && final(self)@.args[argument_ix as int] == old(self)@.args[
                    argument_ix as int
                ] && final(used_cl_args)@ == old(used_cl_args)@,
            },
    {
        let ghost toks = seq_views(cl_arguments@);
        let ghost a0 = self@.args[argument_ix as int];
        let tlen = cl_arguments.len();
        let mut argument = self.arguments[argument_ix].duplicate();
        proof {
            assert(argument@ == a0);
        }
        if argument.is_parsed() {
            return Ok(());
        }
        match argument.get_type() {
            ArgumentType::Positional => {
                let index = argument.get_index();
                if 1 <= index && (index as usize) < tlen {
                    let ix = index as usize;
                    if !used_cl_args[ix] {
                        proof {
                            assert(toks[ix as int] == cl_arguments@[ix as int]@);
                        }
                        let dt = argument.get_data_type();
                        match coerce_text(cl_arguments[ix].as_str(), &dt) {
                            Some(d) => {
                                let ghost dm = d@;
                                argument.set_data(d);
                                argument.set_parsed();
                                used_cl_args[ix] = true;
                                self.arguments[argument_ix] = argument;
                                proof {
                                    assert(self@.args =~= arg_views(
                                        old(self).arguments@,
                                    ).update(
                                        argument_ix as int,
                                        (ArgumentModel { data: Some(dm), parsed: true, ..a0 }),
                                    ));
                                }
                                return Ok(());
                            },
                            None => {},
                        }
                    }
                }
            },
            ArgumentType::Flag => {
                match find_id_match(cl_arguments, used_cl_args, &argument) {
                    Some(i) => {
                        proof {
                            lemma_first_id_match_bounds(toks, used_cl_args@, a0.ids, 1);
                        }
                        let store_true = argument.has_option(ArgumentOption::StoreTrue);
                        argument.set_data(Content::Bool(store_true));
                        argument.set_parsed();
                        used_cl_args[i] = true;
                        self.arguments[argument_ix] = argument;
                        proof {
                            assert(self@.args =~= arg_views(old(self).arguments@).update(
                                argument_ix as int,
                                (ArgumentModel {
                                    data: Some(ContentModel::Bool(store_true)),
                                    parsed: true,
                                    ..a0
                                }),
                            ));
                        }
                        return Ok(());
                    },
                    None => {},
                }
            },
            ArgumentType::Optional => {
                match find_id_match(cl_arguments, used_cl_args, &argument) {
                    Some(i) => {
                        proof {
                            // the matched index lies within the stream
                            lemma_first_id_match_bounds(toks, old(used_cl_args)@, a0.ids, 1);
                        }
                        let n = argument.arity();
                        if tlen - i - 1 < n {
                            return Err(ParseError::ArityUnderflow(argument.get_name()));
                        }
                        let blob = concat_tokens(cl_arguments, i + 1, n);
                        proof {
                            assert(seq_views(cl_arguments@).subrange(
                                i + 1,
                                i + 1 + n,
                            ) =~= toks.subrange(i + 1, i + 1 + n));
                        }
                        let dt = argument.get_data_type();
                        match coerce_text(blob.as_str(), &dt) {
                            Some(d) => {
                                let ghost dm = d@;
                                argument.set_data(d);
                                argument.set_parsed();
                                let ghost u0 = used_cl_args@;
                                let mut j: usize = 0;
                                while j <= n
                                    invariant
                                        j <= n + 1,
                                        n < tlen,
                                        i + n < tlen,
                                        tlen == u0.len(),
                                        used_cl_args@.len() == u0.len(),
                                        used_cl_args@ == (if j == 0 {
                                            u0
                                        } else {
                                            mark_range(u0, i as int, i + j - 1)
                                        }),
                                    decreases n + 1 - j,
                                {
                                    used_cl_args[i + j] = true;
                                    proof {
                                        assert(used_cl_args@ =~= mark_range(
                                            u0,
                                            i as int,
                                            i + j,
                                        ));
                                    }
                                    j += 1;
                                }
                                proof {
                                    assert(used_cl_args@ == mark_range(u0, i as int, i + n));
                                }
                                self.arguments[argument_ix] = argument;
                                proof {
                                    assert(self@.args =~= arg_views(
                                        old(self).arguments@,
                                    ).update(
                                        argument_ix as int,
                                        (ArgumentModel { data: Some(dm), parsed: true, ..a0 }),
                                    ));
                                }
                                return Ok(());
                            },
                            None => {},
                        }
                    },
                    None => {},
                }
            },
        }
        if argument.has_option(ArgumentOption::Necessary) {
            return Err(ParseError::MissingRequired(argument.get_name()));
        }
        Ok(())
    }
}

/// A matched identifier index lies after the program name and within the
/// stream.
pub proof fn lemma_first_id_match_bounds(
    tokens: Seq<Seq<char>>,
    used: Seq<bool>,
    ids: Seq<Seq<char>>,
    from: int,
)
    ensures
        match first_id_match(tokens, used, ids, from) {
            Some(i) => from <= i < tokens.len() && !used[i] && ids.contains(tokens[i]),
            None => true,
        },
    decreases tokens.len() - from,
{
    if from < tokens.len() && !(!used[from] && ids.contains(tokens[from])) {
        lemma_first_id_match_bounds(tokens, used, ids, from + 1);
    }
}

// ---------------------------------------------------------------------------
// The whole pass, as a function
// ---------------------------------------------------------------------------

/// What a whole matching pass leaves behind: the final descriptors and
/// bitmap, or the first fatal error with the state at that point.
pub enum PassOutcome {
    Finished { args: Seq<ArgumentModel>, used: Seq<bool> },
    Arity { at: int, args: Seq<ArgumentModel>, used: Seq<bool> },
    Missing { at: int, args: Seq<ArgumentModel>, used: Seq<bool> },
}

/// Run the matching pass from descriptor `k` on: descriptors in
/// registration order, one step each, against a shared bitmap.
pub open spec fn run_pass(
    tokens: Seq<Seq<char>>,
    args: Seq<ArgumentModel>,
    used: Seq<bool>,
    k: int,
) -> PassOutcome
    decreases args.len() - k,
{
    if k < 0 || k >= args.len() {
        PassOutcome::Finished { args, used }
    } else {
        match match_step(tokens, used, args[k]) {
            StepOutcome::Done { arg, used: u2 } => run_pass(tokens, args.update(k, arg), u2, k + 1),
            StepOutcome::ArityError => PassOutcome::Arity { at: k, args, used },
            StepOutcome::MissingError => PassOutcome::Missing { at: k, args, used },
        }
    }
}

/// A matching step never changes a descriptor's identity, declared type,
/// kind, modifiers, slot or arity; it only records a well-formed value of
/// the declared kind and marks it parsed. The bitmap only gains entries.
pub proof fn lemma_match_step_frame(tokens: Seq<Seq<char>>, used: Seq<bool>, a: ArgumentModel)
    requires
        used.len() == tokens.len(),
    ensures
        match match_step(tokens, used, a) {
            StepOutcome::Done { arg, used: u2 } => arg.name == a.name && arg.ids == a.ids
                && arg.data_type == a.data_type && arg.options == a.options && arg.index
                == a.index && arg.arg_type == a.arg_type && arg.n_args == a.n_args && arg.parsed
                == (a.parsed || arg != a) && u2.len() == used.len() && (forall|m: int|
                0 <= m < used.len() && used[m] ==> u2[m]) && (arg == a || (arg.data matches Some(v) && arg.parsed
                && content_wf(v) && (a.arg_type is Flag ==> v is Bool)
                && (!(a.arg_type is Flag) ==> kind_of(v) == a.data_type))),
            _ => true,
        },
{
    if !a.parsed {
        match a.arg_type {
            ArgumentType::Positional => {
                let i = a.index as int;
                if 1 <= i && i < tokens.len() && !used[i] {
                    lemma_coerce_wf(tokens[i], a.data_type);
                    if coerce(tokens[i], a.data_type) is Some {
                        assert(used.update(i, true).len() == used.len());
                        assert forall|m: int|
                            0 <= m < used.len() && used[m] implies used.update(i, true)[m] by {}
                    }
                }
            },
            ArgumentType::Flag => {
                lemma_first_id_match_bounds(tokens, used, a.ids, 1);
                match first_id_match(tokens, used, a.ids, 1) {
                    Some(i) => {
                        assert(used.update(i, true).len() == used.len());
                        assert forall|m: int|
                            0 <= m < used.len() && used[m] implies used.update(i, true)[m] by {}
                    },
                    None => {},
                }
            },
            ArgumentType::Optional => {
                match first_id_match(tokens, used, a.ids, 1) {
                    Some(i) => {
                        lemma_first_id_match_bounds(tokens, used, a.ids, 1);
                        let n = a.n_args as int;
                        if tokens.len() - i - 1 >= n {
                            lemma_coerce_wf(
                                join_spaces(tokens.subrange(i + 1, i + 1 + n)),
                                a.data_type,
                            );
                            assert(mark_range(used, i, i + n).len() == used.len());
                            assert forall|m: int|
                                0 <= m < used.len() && used[m] implies mark_range(
                                used,
                                i,
                                i + n,
                            )[m] by {}
                        }
                    },
                    None => {},
                }
            },
        }
    }
}

// ---------------------------------------------------------------------------
// The parser invariant
// ---------------------------------------------------------------------------

/// The number of positional descriptors among the first `k`.
pub open spec fn n_positionals(args: Seq<ArgumentModel>, k: int) -> int
    decreases k,
{
    if k <= 0 {
        0
    } else {
        n_positionals(args, k - 1) + (if args[k - 1].arg_type is Positional {
            1int
        } else {
            0int
        })
    }
}

/// The parser invariant. Positional descriptors carry sequential token
/// slots from 1 in registration order and the cursor is the next free slot;
/// other descriptors carry slot -1; flags are boolean; arities are
/// positive; every captured value is well-formed; and a parsed descriptor
/// holds a value of its declared type.
pub open spec fn parser_wf(p: ParserModel) -> bool {
    &&& p.positional_cursor == 1 + n_positionals(p.args, p.args.len() as int)
    &&& forall|m: int|
        0 <= m < p.args.len() ==> ((#[trigger] p.args[m]).arg_type is Positional ==> p.args[m].index
            == 1 + n_positionals(p.args, m))
    &&& forall|m: int|
        0 <= m < p.args.len() ==> (!((#[trigger] p.args[m]).arg_type is Positional)
            ==> p.args[m].index == -1)
    &&& forall|m: int|
        0 <= m < p.args.len() ==> ((#[trigger] p.args[m]).arg_type is Flag ==> p.args[m].data_type
            == DataType::Bool)
    &&& forall|m: int| 0 <= m < p.args.len() ==> (#[trigger] p.args[m]).n_args >= 1
    &&& forall|m: int|
        0 <= m < p.args.len() ==> (match (#[trigger] p.args[m]).data {
            Some(v) => content_wf(v),
            None => true,
        })
    &&& forall|m: int|
        0 <= m < p.args.len() ==> ((#[trigger] p.args[m]).parsed ==> (p.args[m].data matches Some(v)
            && content_wf(v) && kind_of(v) == p.args[m].data_type))
}

/// Two descriptor lists with the same kinds at each place hold the same
/// number of positionals in every prefix.
pub proof fn lemma_n_positionals_same_types(a1: Seq<ArgumentModel>, a2: Seq<ArgumentModel>, m: int)
    requires
        a1.len() == a2.len(),
        forall|i: int| 0 <= i < a1.len() ==> (#[trigger] a1[i]).arg_type == a2[i].arg_type,
        0 <= m <= a1.len(),
    ensures
        n_positionals(a1, m) == n_positionals(a2, m),
    decreases m,
{
    if m > 0 {
        lemma_n_positionals_same_types(a1, a2, m - 1);
    }
}

impl ArgumentParser {
    /// Run the matching pass over the given token stream (token 0 is the
    /// program name), in registration order against one shared consumption
    /// bitmap, stopping at the first fatal error.
    pub fn parse_tokens(&mut self, cl_arguments: &Vec<String>) -> (r: Result<(), ParseError>)
        requires
            forall|m: int| 0 <= m < old(self)@.args.len() ==> (#[trigger] old(self)@.args[m]).n_args
                >= 1,
        ensures
            final(self)@.positional_cursor == old(self)@.positional_cursor,
            parser_wf(old(self)@) ==> parser_wf(final(self)@),
            match run_pass(
                seq_views(cl_arguments@),
                old(self)@.args,
                fresh_bitmap(cl_arguments@.len()),
                0,
            ) {
                PassOutcome::Finished { args, .. } => r is Ok && final(self)@.args == args,
                PassOutcome::Arity { at, args, .. } => (r matches Err(e) && e matches
                    ParseError::ArityUnderflow(n) && n@ == args[at].name) && final(self)@.args
                    == args,
                PassOutcome::Missing { at, args, .. } => (r matches Err(e) && e matches
                    ParseError::MissingRequired(n) && n@ == args[at].name) && final(self)@.args
                    == args,
            },
    {
        let ghost toks = seq_views(cl_arguments@);
        let ghost args0 = self@.args;
        let ghost used0 = fresh_bitmap(cl_arguments@.len());
        let ghost cursor0 = self@.positional_cursor;
        let mut used_arguments: Vec<bool> = make_bitmap(cl_arguments.len());
        let alen = self.arguments.len();
        let mut k: usize = 0;
        while k < alen
            invariant
                k <= alen,
                alen == self@.args.len(),
                args0 == old(self)@.args,
                used0 == fresh_bitmap(cl_arguments@.len()),
                cursor0 == old(self)@.positional_cursor,
                args0.len() == alen,
                used_arguments@.len() == cl_arguments@.len(),
                toks == seq_views(cl_arguments@),
                self@.positional_cursor == cursor0,
                forall|m: int|
                    0 <= m < self@.args.len() ==> (#[trigger] self@.args[m]).n_args >= 1,
                run_pass(toks, args0, used0, 0) == run_pass(
                    toks,
                    self@.args,
                    used_arguments@,
                    k as int,
                ),
                parser_wf(old(self)@) ==> parser_wf(self@),
            decreases alen - k,
        {
            let ghost cur_args = self@.args;
            let ghost cur_used = used_arguments@;
            proof {
                assert(toks.len() == cl_arguments@.len());
                lemma_match_step_frame(toks, cur_used, cur_args[k as int]);
            }
            let res = self.parse_arg(cl_arguments, &mut used_arguments, k);
            proof {
                match match_step(toks, cur_used, cur_args[k as int]) {
                    StepOutcome::ArityError => {
                        assert(self@.args =~= cur_args);
                        assert(run_pass(toks, args0, used0, 0) == (PassOutcome::Arity {
                            at: k as int,
                            args: cur_args,
                            used: cur_used,
                        }));
                    },
                    StepOutcome::MissingError => {
                        assert(self@.args =~= cur_args);
                        assert(run_pass(toks, args0, used0, 0) == (PassOutcome::Missing {
                            at: k as int,
                            args: cur_args,
                            used: cur_used,
                        }));
                    },
                    StepOutcome::Done { arg, used: u2 } => {
                        assert(self@.args =~= cur_args.update(k as int, arg));
                        assert(run_pass(toks, cur_args, cur_used, k as int) == run_pass(
                            toks,
                            self@.args,
                            used_arguments@,
                            k as int + 1,
                        ));
                        assert(old(self)@ == (ParserModel {
                            args: args0,
                            positional_cursor: cursor0,
                        }));
                        if parser_wf(old(self)@) {
                            lemma_wf_after_step(
                                (ParserModel { args: cur_args, positional_cursor: cursor0 }),
                                cur_args[k as int],
                                arg,
                                k as int,
                            );
                        }
                    },
                    _ => {},
                }
            }
            match res {
                Err(e) => {
                    return Err(e);
                },
                _ => {},
            }
            k += 1;
        }
        Ok(())
    }

    /// Split `text` at every space, prepend a synthetic program-name token,
    /// and run the matching pass on the result.
    pub fn parse_arguments_from_text(&mut self, text: String) -> (r: Result<(), ParseError>)
        requires
            forall|m: int| 0 <= m < old(self)@.args.len() ==> (#[trigger] old(self)@.args[m]).n_args
                >= 1,
        ensures
            final(self)@.positional_cursor == old(self)@.positional_cursor,
            parser_wf(old(self)@) ==> parser_wf(final(self)@),
            match run_pass(
                seq!["program_name"@] + space_split(text@),
                old(self)@.args,
                fresh_bitmap(space_split(text@).len() + 1),
                0,
            ) {
                PassOutcome::Finished { args, .. } => r is Ok && final(self)@.args == args,
                PassOutcome::Arity { at, args, .. } => (r matches Err(e) && e matches
                    ParseError::ArityUnderflow(n) && n@ == args[at].name) && final(self)@.args
                    == args,
                PassOutcome::Missing { at, args, .. } => (r matches Err(e) && e matches
                    ParseError::MissingRequired(n) && n@ == args[at].name) && final(self)@.args
                    == args,
            },
    {
        let mut arguments: Vec<String> = split_spaces(text.as_str());
        let program: String = "program_name".to_owned();
        arguments.insert(0, program);
        proof {
            assert(seq_views(arguments@) =~= seq!["program_name"@] + space_split(text@));
            assert(arguments@.len() == space_split(text@).len() + 1);
        }
        self.parse_tokens(&arguments)
    }
}

// ---------------------------------------------------------------------------
// Registration
// ---------------------------------------------------------------------------

/// The options list after registration: booleans get a store-true posture
/// unless `StoreFalse` was asked for.
pub open spec fn reg_options(opts: Seq<ArgumentOption>, t: DataType) -> Seq<ArgumentOption> {
    if t == DataType::Bool && !opts.contains(ArgumentOption::StoreFalse) {
        opts.push(ArgumentOption::StoreTrue)
    } else {
        opts
    }
}

/// The captured default after registration: a boolean defaults to the value
/// its polarity flips away from; anything else keeps the given default.
pub open spec fn reg_data(
    dflt: Option<ContentModel>,
    opts: Seq<ArgumentOption>,
    t: DataType,
) -> Option<ContentModel> {
    if t == DataType::Bool {
        if opts.contains(ArgumentOption::StoreFalse) {
            Some(ContentModel::Bool(true))
        } else {
            Some(ContentModel::Bool(false))
        }
    } else {
        dflt
    }
}

/// The descriptor that registering an argument appends, given the parser's
/// positional cursor. The canonical name drops leading dashes; the call
/// identifiers are the given name followed by the aliases; a positional is
/// forced `Necessary`, takes the cursor as its slot and spans one token.
pub open spec fn registered_arg(
    name: Seq<char>,
    aliases: Seq<Seq<char>>,
    t: DataType,
    opts0: Seq<ArgumentOption>,
    dflt: Option<ContentModel>,
    cursor: i32,
) -> ArgumentModel
    recommends
        name.len() > 0,
{
    let opts1 = reg_options(opts0, t);
    let ids = seq![name] + aliases;
    let cname = strip_dashes(name);
    match kind_of_name(name, opts1, t) {
        Some(ArgumentType::Positional) => ArgumentModel {
            name: cname,
            ids,
            data_type: t,
            data: None,
            options: (if opts1.contains(ArgumentOption::Necessary) {
                opts1
            } else {
                opts1.push(ArgumentOption::Necessary)
            }),
            parsed: false,
            index: cursor,
            arg_type: ArgumentType::Positional,
            n_args: 1,
        },
        Some(ArgumentType::Flag) => ArgumentModel {
            name: cname,
            ids,
            data_type: DataType::Bool,
            data: reg_data(dflt, opts1, t),
            options: opts1,
            parsed: false,
            index: (-1) as i32,
            arg_type: ArgumentType::Flag,
            n_args: 1,
        },
        _ => ArgumentModel {
            name: cname,
            ids,
            data_type: t,
            data: reg_data(dflt, opts1, t),
            options: opts1,
            parsed: false,
            index: (-1) as i32,
            arg_type: ArgumentType::Optional,
            n_args: n_args_of(opts1),
        },
    }
}

/// An options list always implies a positive arity.
pub proof fn lemma_n_args_positive(opts: Seq<ArgumentOption>)
    ensures
        n_args_of(opts) >= 1,
    decreases opts.len(),
{
    if opts.len() > 0 {
        lemma_n_args_positive(opts.drop_last());
    }
}

/// One step of wf preservation: replacing descriptor `k` with what its
/// matching step produced keeps the parser invariant.
proof fn lemma_wf_after_step(p: ParserModel, a: ArgumentModel, arg: ArgumentModel, k: int)
    requires
        parser_wf(p),
        0 <= k < p.args.len(),
        a == p.args[k],
        arg.name == a.name,
        arg.data_type == a.data_type,
        arg.options == a.options,
        arg.index == a.index,
        arg.arg_type == a.arg_type,
        arg.n_args == a.n_args,
        arg == a || (arg.data matches Some(v) && arg.parsed && content_wf(v) && (a.arg_type
            is Flag ==> v is Bool) && (!(a.arg_type is Flag) ==> kind_of(v) == a.data_type)),
    ensures
        parser_wf((ParserModel { args: p.args.update(k, arg), ..p })),
{
    let q = p.args.update(k, arg);
    assert forall|i: int| 0 <= i < q.len() implies (#[trigger] q[i]).arg_type == p.args[i].arg_type
        by {}
    assert forall|m: int| 0 <= m <= q.len() implies n_positionals(q, m) == n_positionals(p.args, m)
        by {
        lemma_n_positionals_same_types(q, p.args, m);
    }
}


impl ArgumentParser {
    fn add_flag(
        &mut self,
        name: String,
        identifiers: Vec<String>,
        options: Option<Vec<ArgumentOption>>,
        default_val: Option<Content>,
    ) -> (r: Result<(), String>)
        ensures
            r is Ok,
            final(self)@.positional_cursor == old(self)@.positional_cursor,
            final(self)@.args == old(self)@.args.push(
                (ArgumentModel {
                    name: name@,
                    ids: seq_views(identifiers@),
                    data_type: DataType::Bool,
                    data: (match default_val {
                        Some(c) => Some(c@),
                        None => None::<ContentModel>,
                    }),
                    options: (match options {
                        Some(o) => o@,
                        None => Seq::<ArgumentOption>::empty(),
                    }),
                    parsed: false,
                    index: (-1) as i32,
                    arg_type: ArgumentType::Flag,
                    n_args: 1,
                }),
            ),
    {
        let a = Argument::new_flag(name.as_str(), identifiers, options, default_val);
        self.arguments.push(a);
        proof {
            assert(self@.args =~= arg_views(old(self).arguments@).push(
                arg_views(self.arguments@).last(),
            ));
        }
        Ok(())
    }

    fn add_positional(
        &mut self,
        name: String,
        identifiers: Vec<String>,
        data_type: DataType,
        options: Option<Vec<ArgumentOption>>,
        index: i32,
    ) -> (r: Result<(), String>)
        ensures
            r is Ok,
            final(self)@.positional_cursor == old(self)@.positional_cursor,
            final(self)@.args == old(self)@.args.push(
                (ArgumentModel {
                    name: name@,
                    ids: seq_views(identifiers@),
                    data_type,
                    data: None::<ContentModel>,
                    options: (match options {
                        Some(o) => o@,
                        None => Seq::<ArgumentOption>::empty(),
                    }),
                    parsed: false,
                    index,
                    arg_type: ArgumentType::Positional,
                    n_args: 1,
                }),
            ),
    {
        let a = Argument::new_positional(name.as_str(), identifiers, data_type, options, index);
        self.arguments.push(a);
        proof {
            assert(self@.args =~= arg_views(old(self).arguments@).push(
                arg_views(self.arguments@).last(),
            ));
        }
        Ok(())
    }

    fn add_optional(
        &mut self,
        name: String,
        identifiers: Vec<String>,
        data_type: DataType,
        options: Option<Vec<ArgumentOption>>,
        default_val: Option<Content>,
        n_args_: usize,
    ) -> (r: Result<(), String>)
        ensures
            r is Ok,
            final(self)@.positional_cursor == old(self)@.positional_cursor,
            final(self)@.args == old(self)@.args.push(
                (ArgumentModel {
                    name: name@,
                    ids: seq_views(identifiers@),
                    data_type,
                    data: (match default_val {
                        Some(c) => Some(c@),
                        None => None::<ContentModel>,
                    }),
                    options: (match options {
                        Some(o) => o@,
                        None => Seq::<ArgumentOption>::empty(),
                    }),
                    parsed: false,
                    index: (-1) as i32,
                    arg_type: ArgumentType::Optional,
                    n_args: n_args_,
                }),
            ),
    {
        let a = Argument::new_optional(
            name.as_str(),
            identifiers,
            data_type,
            options,
            default_val,
            n_args_,
        );
        self.arguments.push(a);
        proof {
            assert(self@.args =~= arg_views(old(self).arguments@).push(
                arg_views(self.arguments@).last(),
            ));
        }
        Ok(())
    }

    /// Register one argument, as `registered_arg` says: its kind inferred
    /// from the name, modifiers and type; a positional takes the next slot.
    /// Fails exactly on an empty name, without registering anything.
    pub fn add_argument(
        &mut self,
        name: &str,
        alias: Option<Vec<String>>,
        data_type: DataType,
        options_: Option<Vec<ArgumentOption>>,
        default_value: Option<Content>,
    ) -> (r: Result<(), String>)
        requires
            old(self)@.positional_cursor < i32::MAX,
            (match default_value {
                Some(c) => content_wf(c@),
                None => true,
            }),
        ensures
            (r is Ok) == (name@.len() > 0),
            parser_wf(old(self)@) ==> parser_wf(final(self)@),
            name@.len() == 0 ==> final(self)@ == old(self)@ && (r matches Err(e) && e@
                == "Invalid name for arg!"@),
            name@.len() > 0 ==> ({
                let m = registered_arg(
                    name@,
                    (match alias {
                        Some(v) => seq_views(v@),
                        None => Seq::<Seq<char>>::empty(),
                    }),
                    data_type,
                    (match options_ {
                        Some(o) => o@,
                        None => Seq::<ArgumentOption>::empty(),
                    }),
                    (match default_value {
                        Some(c) => Some(c@),
                        None => None::<ContentModel>,
                    }),
                    old(self)@.positional_cursor,
                );
                final(self)@.args == old(self)@.args.push(m) && final(self)@.positional_cursor
                    == (if m.arg_type is Positional {
                    old(self)@.positional_cursor + 1
                } else {
                    old(self)@.positional_cursor as int
                })
            }),
    {
        let ghost opts0 = (match &options_ {
            Some(o) => o@,
            None => Seq::<ArgumentOption>::empty(),
        });
        let ghost dflt0 = (match &default_value {
            Some(c) => Some(c@),
            None => None::<ContentModel>,
        });
        let mut data: Option<Content> = default_value;
        let mut options: Vec<ArgumentOption> = match options_ {
            Some(o) => o,
            None => Vec::new(),
        };
        if data_type == DataType::Bool {
            if opts_contain(&options, ArgumentOption::StoreFalse) {
                data = Some(Content::Bool(true));
            } else {
                data = Some(Content::Bool(false));
                options.push(ArgumentOption::StoreTrue);
            }
        }
        proof {
            assert(options@ == reg_options(opts0, data_type));
            assert((match data {
                Some(c) => Some(c@),
                None => None::<ContentModel>,
            }) == (if data_type == DataType::Bool {
                reg_data(dflt0, options@, data_type)
            } else {
                dflt0
            }));
        }
        let arg_name: String = match Argument::parse_name(name) {
            Some(n) => n,
            None => name.to_owned(),
        };
        let mut identifiers: Vec<String> = Vec::new();
        identifiers.push(name.to_owned());
        let ghost aliases = (match &alias {
            Some(v) => seq_views(v@),
            None => Seq::<Seq<char>>::empty(),
        });
        match alias {
            Some(mut i) => {
                identifiers.append(&mut i);
            },
            None => {},
        }
        proof {
            assert(seq_views(identifiers@) =~= seq![name@] + aliases);
        }
        let n_args = Argument::get_n_args(&options);
        match Argument::guess_type(name, &options, &data_type) {
            Some(t) => {
                let ghost m = registered_arg(
                    name@,
                    aliases,
                    data_type,
                    opts0,
                    dflt0,
                    self@.positional_cursor,
                );
                let res = match t {
                    ArgumentType::Optional => {
                        self.add_optional(
                            arg_name,
                            identifiers,
                            data_type,
                            Some(options),
                            data,
                            n_args,
                        )
                    },
                    ArgumentType::Positional => {
                        if !opts_contain(&options, ArgumentOption::Necessary) {
                            options.push(ArgumentOption::Necessary);
                        }
                        let index = self.positional_cursor;
                        self.positional_cursor = self.positional_cursor + 1;
                        self.add_positional(
                            arg_name,
                            identifiers,
                            data_type,
                            Some(options),
                            index,
                        )
                    },
                    ArgumentType::Flag => {
                        self.add_flag(arg_name, identifiers, Some(options), data)
                    },
                };
                proof {
                    lemma_n_args_positive(reg_options(opts0, data_type));
                    assert(final(self)@.args.last() == m);
                    assert(final(self)@.args =~= old(self)@.args.push(m));
                    if parser_wf(old(self)@) {
                        lemma_wf_after_push(old(self)@, m);
                    }
                }
                res
            },
            None => {
                proof {
                    reveal_strlit("Invalid name for arg!");
                }
                Err("Invalid name for arg!".to_owned())
            },
        }
    }
}

/// Appending a freshly registered descriptor keeps the parser invariant.
proof fn lemma_wf_after_push(p: ParserModel, m: ArgumentModel)
    requires
        parser_wf(p),
        p.positional_cursor < i32::MAX,
        m.parsed == false,
        m.n_args >= 1,
        (match m.data {
            Some(v) => content_wf(v),
            None => true,
        }),
        m.arg_type is Flag ==> m.data_type == DataType::Bool,
        m.arg_type is Positional ==> m.index == p.positional_cursor,
        !(m.arg_type is Positional) ==> m.index == -1,
    ensures
        parser_wf(
            (ParserModel {
                args: p.args.push(m),
                positional_cursor: (if m.arg_type is Positional {
                    (p.positional_cursor + 1) as i32
                } else {
                    p.positional_cursor
                }),
            }),
        ),
{
    let q = p.args.push(m);
    assert forall|k: int| 0 <= k <= p.args.len() implies n_positionals(q, k) == n_positionals(
        p.args,
        k,
    ) by {
        lemma_n_positionals_prefix(q, p.args, k);
    }
    assert(q[q.len() - 1] == m);
    assert(n_positionals(q, q.len() as int) == n_positionals(q, q.len() - 1) + (
    if m.arg_type is Positional {
        1int
    } else {
        0int
    }));
    assert(n_positionals(q, q.len() as int) == n_positionals(p.args, p.args.len() as int) + (
    if m.arg_type is Positional {
        1int
    } else {
        0int
    }));
}

/// Two descriptor lists that agree on kinds below `k` hold the same number
/// of positionals in every prefix up to `k`.
proof fn lemma_n_positionals_prefix(a1: Seq<ArgumentModel>, a2: Seq<ArgumentModel>, k: int)
    requires
        forall|i: int| 0 <= i < k ==> (#[trigger] a1[i]).arg_type == a2[i].arg_type,
    ensures
        n_positionals(a1, k) == n_positionals(a2, k),
    decreases k,
{
    if k > 0 {
        lemma_n_positionals_prefix(a1, a2, k - 1);
    }
}


/// The descriptor a name looks up: the latest-registered one bearing it.
pub open spec fn find_arg(args: Seq<ArgumentModel>, name: Seq<char>) -> Option<ArgumentModel>
    decreases args.len(),
{
    if args.len() == 0 {
        None
    } else if args.last().name == name {
        Some(args.last())
    } else {
        find_arg(args.drop_last(), name)
    }
}

/// Every captured value in the parser is well-formed.
pub open spec fn args_data_wf(args: Seq<ArgumentModel>) -> bool {
    forall|m: int|
        0 <= m < args.len() ==> (match (#[trigger] args[m]).data {
            Some(v) => content_wf(v),
            None => true,
        })
}

impl ArgumentParser {
    /// Look an argument up by its canonical name and extract its captured
    /// value as a `T`: nothing if the name is unknown, no value was
    /// captured, or the value's kind does not match `T`.
    pub fn get_value<T: ExtractFromContents>(&self, arg: &str) -> (r: Option<T>)
        requires
            args_data_wf(self@.args),
        ensures
            match find_arg(self@.args, arg@) {
                Some(a) => match a.data {
                    Some(v) => T::extract_rel(v, r),
                    None => r is None,
                },
                None => r is None,
            },
    {
        let mut ret: Option<Content> = None;
        let alen = self.arguments.len();
        let mut k: usize = 0;
        proof {
            assert(self@.args.take(0) =~= Seq::<ArgumentModel>::empty());
        }
        while k < alen
            invariant
                k <= alen,
                alen == self@.args.len(),
                args_data_wf(self@.args),
                match find_arg(self@.args.take(k as int), arg@) {
                    Some(a) => (match &ret {
                        Some(c) => a.data == Some(c@) && content_wf(c@),
                        None => a.data is None,
                    }),
                    None => ret is None,
                },
            decreases alen - k,
        {
            let ghost prefix = self@.args.take(k as int);
            let name_matches = str_eq(self.arguments[k].get_name().as_str(), arg);
            proof {
                assert(self@.args.take(k + 1).drop_last() =~= prefix);
                assert(self@.args.take(k + 1).last() == self@.args[k as int]);
            }
            if name_matches {
                ret = self.arguments[k].get_data();
                proof {
                    assert(self@.args[k as int].data matches Some(v) ==> content_wf(v));
                }
            }
            k += 1;
        }
        proof {
            assert(self@.args.take(alen as int) =~= self@.args);
        }
        match ret {
            Some(c) => c.get_value::<T>(),
            None => None,
        }
    }

    /// The registered descriptors, in registration order.
    pub fn get_arguments(&self) -> (r: &Vec<Argument>)
        ensures
            arg_views(r@) == self@.args,
    {
        &self.arguments
    }

    /// A parser equal to this one, sharing no state with it: a pass run on
    /// the copy leaves the original untouched.
    pub fn duplicate(&self) -> (r: ArgumentParser)
        ensures
            r@ == self@,
    {
        let alen = self.arguments.len();
        let mut args: Vec<Argument> = Vec::new();
        let mut k: usize = 0;
        while k < alen
            invariant
                k <= alen,
                alen == self.arguments@.len(),
                arg_views(args@) =~= arg_views(self.arguments@).take(k as int),
            decreases alen - k,
        {
            let d = self.arguments[k].duplicate();
            let ghost before = args@;
            args.push(d);
            proof {
                assert(arg_views(before).len() == before.len());
                assert(arg_views(before).len() == k);
                assert(args@ == before.push(d));
                assert(args@.len() == k + 1);
                assert forall|i: int|
                    0 <= i < k + 1 implies arg_views(args@)[i] == arg_views(
                    self.arguments@,
                )[i] by {
                    assert(arg_views(args@)[i] == args@[i]@);
                    assert(arg_views(self.arguments@)[i] == self.arguments@[i]@);
                    if i < k {
                        assert(args@[i] == before[i]);
                        assert(arg_views(before)[i] == before[i]@);
                    }
                }
                assert(arg_views(args@) =~= arg_views(self.arguments@).take(k + 1));
            }
            k += 1;
        }
        let r = ArgumentParser { arguments: args, positional_cursor: self.positional_cursor };
        proof {
            assert(arg_views(self.arguments@).take(alen as int) =~= arg_views(self.arguments@));
            assert(r@.args == self@.args);
        }
        r
    }
}


// ---------------------------------------------------------------------------
// Laws of the pass
// ---------------------------------------------------------------------------

/// A parsed descriptor holds a well-formed value of its declared type, so
/// typed extraction of it cannot fail.
pub proof fn lemma_parsed_value_typed(p: ParserModel, m: int)
    requires
        parser_wf(p),
        0 <= m < p.args.len(),
        p.args[m].parsed,
    ensures
        p.args[m].data matches Some(v) && content_wf(v) && kind_of(v) == p.args[m].data_type,
{
}

/// Positional descriptors receive sequential token slots starting at 1 in
/// registration order.
pub proof fn lemma_positional_indices_sequential(p: ParserModel, m: int)
    requires
        parser_wf(p),
        0 <= m < p.args.len(),
        p.args[m].arg_type is Positional,
    ensures
        p.args[m].index == 1 + n_positionals(p.args, m),
{
}

/// A positional descriptor's captured value comes from exactly the token at
/// its assigned slot, and that slot is the one token its step consumes.
pub proof fn lemma_positional_matches_own_slot(
    tokens: Seq<Seq<char>>,
    used: Seq<bool>,
    a: ArgumentModel,
)
    requires
        a.arg_type is Positional,
        !a.parsed,
    ensures
        match match_step(tokens, used, a) {
            StepOutcome::Done { arg, used: u2 } => (arg.parsed && arg != a) ==> (1
                <= a.index as int && (a.index as int) < tokens.len() && !used[a.index as int]
                && arg.data == coerce(tokens[a.index as int], a.data_type) && arg.data is Some
                && u2 == used.update(a.index as int, true)),
            _ => true,
        },
{
}

/// Re-running the matching step on an already-parsed descriptor changes
/// neither the descriptor nor the consumption bitmap: one parse pass over a
/// descriptor is idempotent.
pub proof fn lemma_match_idempotent(tokens: Seq<Seq<char>>, used: Seq<bool>, a: ArgumentModel)
    requires
        a.parsed,
    ensures
        match_step(tokens, used, a) == (StepOutcome::Done { arg: a, used }),
{
}

/// The descriptors and bitmap before step `k` of a pass, if none of the
/// first `k` steps failed: the stepwise view of `run_pass`.
pub open spec fn pass_state(
    tokens: Seq<Seq<char>>,
    args: Seq<ArgumentModel>,
    used: Seq<bool>,
    k: int,
) -> Option<(Seq<ArgumentModel>, Seq<bool>)>
    decreases k,
{
    if k <= 0 {
        Some((args, used))
    } else {
        match pass_state(tokens, args, used, k - 1) {
            Some(st) => {
                if k - 1 < st.0.len() {
                    match match_step(tokens, st.1, st.0[k - 1]) {
                        StepOutcome::Done { arg, used: u2 } => Some((st.0.update(k - 1, arg), u2)),
                        _ => None,
                    }
                } else {
                    Some(st)
                }
            },
            None => None,
        }
    }
}

/// `pass_state` is how far `run_pass` has come: while no step has failed,
/// running the whole pass equals running it from the state before step `k`.
pub proof fn lemma_pass_state_run_pass(
    tokens: Seq<Seq<char>>,
    args: Seq<ArgumentModel>,
    used: Seq<bool>,
    k: int,
)
    requires
        0 <= k,
    ensures
        match pass_state(tokens, args, used, k) {
            Some(st) => run_pass(tokens, args, used, 0) == run_pass(tokens, st.0, st.1, k)
                && st.0.len() == args.len(),
            None => true,
        },
    decreases k,
{
    if k > 0 {
        lemma_pass_state_run_pass(tokens, args, used, k - 1);
    }
}

/// The token indices that descriptor `k` consumes during a pass.
pub open spec fn consumed_at(
    tokens: Seq<Seq<char>>,
    args: Seq<ArgumentModel>,
    used: Seq<bool>,
    k: int,
) -> Set<int> {
    match (pass_state(tokens, args, used, k), pass_state(tokens, args, used, k + 1)) {
        (Some(st1), Some(st2)) => Set::new(
            |j: int| 0 <= j < st1.1.len() && !st1.1[j] && st2.1[j],
        ),
        _ => Set::<int>::empty(),
    }
}

/// Along a pass the bitmap only gains entries: whatever step `j` left
/// consumed is still consumed before any later step.
proof fn lemma_pass_state_monotone(
    tokens: Seq<Seq<char>>,
    args: Seq<ArgumentModel>,
    used: Seq<bool>,
    j: int,
    k: int,
)
    requires
        used.len() == tokens.len(),
        0 <= j <= k,
    ensures
        match (pass_state(tokens, args, used, j), pass_state(tokens, args, used, k)) {
            (Some(s1), Some(s2)) => s1.1.len() == used.len() && s2.1.len() == used.len() && forall|
                m: int,
            | 0 <= m < used.len() && s1.1[m] ==> s2.1[m],
            _ => true,
        },
    decreases k - j,
{
    if j == k {
        lemma_pass_state_len(tokens, args, used, j);
    } else {
        lemma_pass_state_monotone(tokens, args, used, j, k - 1);
        lemma_pass_state_len(tokens, args, used, k - 1);
        match pass_state(tokens, args, used, k - 1) {
            Some(st) => {
                if k - 1 < st.0.len() {
                    lemma_match_step_frame(tokens, st.1, st.0[k - 1]);
                }
            },
            None => {},
        }
    }
}

/// The bitmap keeps its length along a pass.
proof fn lemma_pass_state_len(
    tokens: Seq<Seq<char>>,
    args: Seq<ArgumentModel>,
    used: Seq<bool>,
    k: int,
)
    requires
        used.len() == tokens.len(),
        0 <= k,
    ensures
        match pass_state(tokens, args, used, k) {
            Some(st) => st.1.len() == used.len(),
            None => true,
        },
    decreases k,
{
    if k > 0 {
        lemma_pass_state_len(tokens, args, used, k - 1);
        match pass_state(tokens, args, used, k - 1) {
            Some(st) => {
                if k - 1 < st.0.len() {
                    lemma_match_step_frame(tokens, st.1, st.0[k - 1]);
                }
            },
            None => {},
        }
    }
}

/// No two descriptors consume the same token index in one pass: an entry of
/// the consumption bitmap is set at most once.
pub proof fn lemma_no_double_consumption(
    tokens: Seq<Seq<char>>,
    args: Seq<ArgumentModel>,
    used: Seq<bool>,
    j: int,
    k: int,
)
    requires
        used.len() == tokens.len(),
        0 <= j < k,
    ensures
        consumed_at(tokens, args, used, j).disjoint(consumed_at(tokens, args, used, k)),
{
    let cj = consumed_at(tokens, args, used, j);
    let ck = consumed_at(tokens, args, used, k);
    match (pass_state(tokens, args, used, j), pass_state(tokens, args, used, j + 1)) {
        (Some(s1), Some(s2)) => {
            match (pass_state(tokens, args, used, k), pass_state(tokens, args, used, k + 1)) {
                (Some(t1), Some(t2)) => {
                    lemma_pass_state_monotone(tokens, args, used, j + 1, k);
                    lemma_pass_state_len(tokens, args, used, j);
                    lemma_pass_state_len(tokens, args, used, k);
                    assert forall|x: int| cj.contains(x) implies !ck.contains(x) by {
                        assert(s2.1[x]);
                        assert(t1.1[x]);
                    }
                },
                _ => {
                    assert(ck =~= Set::<int>::empty());
                    assert forall|x: int| cj.contains(x) implies !ck.contains(x) by {}
                },
            }
        },
        _ => {
            assert(cj =~= Set::<int>::empty());
            assert forall|x: int| cj.contains(x) implies !ck.contains(x) by {}
        },
    }
}


} // verus!
