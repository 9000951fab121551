//! What the command line asks for.

use vstd::prelude::*;
use vstd::string::*;

use crate::manifest::fields::{number_in, numeral_fault, scan_number, NumeralFault};
use crate::manifest::paths::strings_view;
use crate::utils::text::{str_eq, to_chars};

verus! {

/// Why the tool stops.
#[derive(Debug)]
pub struct CliError {
    pub message: String,
}

impl View for CliError {
    type V = Seq<char>;

    open spec fn view(&self) -> Seq<char> {
        self.message@
    }
}

/// What to do.
#[derive(Debug, Clone, Copy, PartialEq, Eq, Structural)]
pub enum Command {
    /// Print how the tool is used.
    Usage,
    /// Unpack; the arguments are those behind the first.
    Unpack,
    /// Pack; the arguments are those behind the first.
    Pack,
    /// Unpack; the first argument is an archive already.
    UnpackPath,
    /// Print how the tool is used, and fail.
    Unknown,
}

/// The text ends in `.cpk`, in either case.
pub open spec fn names_archive(text: Seq<char>) -> bool {
    let n = text.len() as int;
    &&& n >= 4
    &&& text[n - 4] == '.'
    &&& text[n - 3] == 'c' || text[n - 3] == 'C'
    &&& text[n - 2] == 'p' || text[n - 2] == 'P'
    &&& text[n - 1] == 'k' || text[n - 1] == 'K'
}

/// What the arguments ask for.
pub open spec fn command_of(args: Seq<Seq<char>>) -> Command {
    if args.len() == 0 {
        Command::Usage
    } else if args[0] == "unpack"@ {
        Command::Unpack
    } else if args[0] == "pack"@ {
        Command::Pack
    } else if args[0] == "help"@ || args[0] == "--help"@ || args[0] == "-h"@ {
        Command::Usage
    } else if names_archive(args[0]) {
        Command::UnpackPath
    } else {
        Command::Unknown
    }
}

/// What the arguments ask for.
pub fn parse_command(args: &Vec<String>) -> (command: Command)
    ensures
        command == command_of(strings_view(args@)),
{
    if args.len() == 0 {
        return Command::Usage;
    }
    let first = args[0].as_str();
    if str_eq(first, "unpack") {
        return Command::Unpack;
    }
    if str_eq(first, "pack") {
        return Command::Pack;
    }
    if str_eq(first, "help") || str_eq(first, "--help") || str_eq(first, "-h") {
        return Command::Usage;
    }
    let text = to_chars(first);
    let n: usize = text.len();
    if n >= 4 && text[n - 4] == '.' && (text[n - 3] == 'c' || text[n - 3] == 'C') && (text[n - 2]
        == 'p' || text[n - 2] == 'P') && (text[n - 1] == 'k' || text[n - 1] == 'K') {
        Command::UnpackPath
    } else {
        Command::Unknown
    }
}

/// What to unpack.
#[derive(Debug)]
pub struct UnpackArguments {
    pub input: String,
    pub output: Option<String>,
    pub p5r: bool,
}

/// [`UnpackArguments`] with its texts as character sequences.
pub struct UnpackView {
    pub input: Seq<char>,
    pub output: Option<Seq<char>>,
    pub p5r: bool,
}

/// The text, if there is one.
pub open spec fn text_view(text: Option<String>) -> Option<Seq<char>> {
    match text {
        Some(t) => Some(t@),
        None => None,
    }
}

impl View for UnpackArguments {
    type V = UnpackView;

    open spec fn view(&self) -> UnpackView {
        UnpackView { input: self.input@, output: text_view(self.output), p5r: self.p5r }
    }
}

/// The argument is an option.
pub open spec fn is_option(arg: Seq<char>) -> bool {
    arg.len() > 0 && arg[0] == '-'
}

/// What is told of an option that `unpack` does not have.
pub open spec fn unknown_unpack_option(arg: Seq<char>) -> Seq<char> {
    "unknown unpack option: "@ + arg
}

/// The arguments of `unpack` from `from` on: those that are no options, and
/// whether the file transform is asked for.
pub open spec fn unpack_parts(args: Seq<Seq<char>>, from: int) -> Result<
    (Seq<Seq<char>>, bool),
    Seq<char>,
>
    decreases args.len() - from,
{
    if from >= args.len() {
        Ok((Seq::empty(), false))
    } else if args[from] == "--p5r"@ {
        match unpack_parts(args, from + 1) {
            Ok((positional, _)) => Ok((positional, true)),
            Err(e) => Err(e),
        }
    } else if is_option(args[from]) {
        Err(unknown_unpack_option(args[from]))
    } else {
        match unpack_parts(args, from + 1) {
            Ok((positional, p5r)) => Ok((seq![args[from]] + positional, p5r)),
            Err(e) => Err(e),
        }
    }
}

/// The second argument, if there is one.
pub open spec fn second(positional: Seq<Seq<char>>) -> Option<Seq<char>> {
    if positional.len() > 1 {
        Some(positional[1])
    } else {
        None
    }
}

/// What the arguments from `from` on ask to unpack.
pub open spec fn unpack_of(args: Seq<Seq<char>>, from: int) -> Result<UnpackView, Seq<char>> {
    match unpack_parts(args, from) {
        Err(e) => Err(e),
        Ok((positional, p5r)) => if positional.len() == 0 || positional.len() > 2 {
            Err("usage: cri-cpk-cli unpack <input.cpk> [output-dir] [--p5r]"@)
        } else {
            Ok(UnpackView { input: positional[0], output: second(positional), p5r })
        },
    }
}

fn starts_as_option(arg: &str) -> (yes: bool)
    ensures
        yes == is_option(arg@),
{
    let text = to_chars(arg);
    text.len() > 0 && text[0] == '-'
}

/// `message`, and the text behind it.
fn complaint(message: &str, text: &str) -> (e: CliError)
    ensures
        e@ == message@ + text@,
{
    let mut all = message.to_owned();
    all.append(text);
    CliError { message: all }
}

/// What the scan of `unpack` arguments up to some point found, joined with
/// what stands behind.
spec fn unpack_joined(
    positional: Seq<Seq<char>>,
    p5r: bool,
    rest: Result<(Seq<Seq<char>>, bool), Seq<char>>,
) -> Result<(Seq<Seq<char>>, bool), Seq<char>> {
    match rest {
        Ok((more, flag)) => Ok((positional + more, p5r || flag)),
        Err(e) => Err(e),
    }
}

/// The second argument, if there is one.
fn second_of(positional: &Vec<String>) -> (v: Option<String>)
    ensures
        text_view(v) == second(strings_view(positional@)),
{
    if positional.len() > 1 {
        Some(positional[1].clone())
    } else {
        None
    }
}

/// What the arguments from `from` on ask to unpack.
pub fn parse_unpack(args: &Vec<String>, from: usize) -> (r: Result<UnpackArguments, CliError>)
    ensures
        match unpack_of(strings_view(args@), from as int) {
            Ok(v) => r matches Ok(a) && a@ == v,
            Err(e) => r matches Err(f) && f@ == e,
        },
{
    let ghost list = strings_view(args@);
    let ghost whole = unpack_parts(list, from as int);
    let mut positional: Vec<String> = Vec::new();
    let mut p5r = false;
    let mut i: usize = from;
    assert(strings_view(positional@) =~= Seq::empty());
    proof {
        if whole is Ok {
            assert(strings_view(positional@) + whole->Ok_0.0 =~= whole->Ok_0.0);
        }
    }
    while i < args.len()
        invariant
            list == strings_view(args@),
            whole == unpack_parts(list, from as int),
            whole == unpack_joined(
                strings_view(positional@),
                p5r,
                unpack_parts(list, i as int),
            ),
        decreases args@.len() - i,
    {
        let arg = args[i].as_str();
        assert(list[i as int] == arg@);
        let ghost rest = unpack_parts(list, i + 1);
        if str_eq(arg, "--p5r") {
            p5r = true;
        } else if starts_as_option(arg) {
            return Err(complaint("unknown unpack option: ", arg));
        } else {
            let ghost before = positional@;
            positional.push(args[i].clone());
            proof {
                assert(strings_view(positional@) =~= strings_view(before).push(arg@));
                if rest is Ok {
                    assert(strings_view(before) + (seq![arg@] + rest->Ok_0.0) =~= strings_view(
                        positional@,
                    ) + rest->Ok_0.0);
                }
            }
        }
        i = i + 1;
    }
    assert(strings_view(positional@) + Seq::<Seq<char>>::empty() =~= strings_view(positional@));
    if positional.len() == 0 || positional.len() > 2 {
        return Err(
            CliError {
                message: "usage: cri-cpk-cli unpack <input.cpk> [output-dir] [--p5r]".to_owned(),
            },
        );
    }
    Ok(
        UnpackArguments {
            input: positional[0].clone(),
            output: second_of(&positional),
            p5r,
        },
    )
}

/// What is told of a fault.
pub open spec fn fault_text(fault: NumeralFault) -> Seq<char> {
    match fault {
        NumeralFault::Empty => "cannot parse integer from empty string"@,
        NumeralFault::InvalidDigit => "invalid digit found in string"@,
        NumeralFault::TooLarge => "number too large to fit in target type"@,
    }
}

/// The text has this prefix.
pub open spec fn has_prefix(text: Seq<char>, prefix: Seq<char>) -> bool {
    prefix.len() <= text.len() && text.take(prefix.len() as int) == prefix
}

/// The digits of a number, and their base: `0x` or `0X` stands before
/// hexadecimal ones.
pub open spec fn based_digits(text: Seq<char>) -> (Seq<char>, int) {
    if has_prefix(text, "0x"@) || has_prefix(text, "0X"@) {
        (text.skip(2), 16)
    } else {
        (text, 10)
    }
}

/// The 16-bit number that a text stands for.
pub open spec fn u16_of(text: Seq<char>) -> Result<u16, Seq<char>> {
    let (digits, radix) = based_digits(text);
    match numeral_fault(digits, radix, u16::MAX as int) {
        Some(fault) => Err(fault_text(fault)),
        None => Ok(number_in(digits, radix, u16::MAX as int)->Some_0 as u16),
    }
}

fn fault_message(fault: NumeralFault) -> (e: CliError)
    ensures
        e@ == fault_text(fault),
{
    let message = match fault {
        NumeralFault::Empty => "cannot parse integer from empty string".to_owned(),
        NumeralFault::InvalidDigit => "invalid digit found in string".to_owned(),
        NumeralFault::TooLarge => "number too large to fit in target type".to_owned(),
    };
    CliError { message }
}

/// The 16-bit number that a text stands for.
pub fn parse_u16(value: &str) -> (r: Result<u16, CliError>)
    ensures
        match u16_of(value@) {
            Ok(v) => r matches Ok(n) && n == v,
            Err(e) => r matches Err(f) && f@ == e,
        },
{
    let text = to_chars(value);
    parse_u16_chars(&text)
}

fn parse_u16_chars(text: &Vec<char>) -> (r: Result<u16, CliError>)
    ensures
        match u16_of(text@) {
            Ok(v) => r matches Ok(n) && n == v,
            Err(e) => r matches Err(f) && f@ == e,
        },
{
    proof {
        reveal_strlit("0x");
        reveal_strlit("0X");
        assert("0x"@ =~= seq!['0', 'x']);
        assert("0X"@ =~= seq!['0', 'X']);
        if text@.len() >= 2 {
            assert(text@.take(2) =~= seq![text@[0], text@[1]]);
            assert(text@.take(2)[0] == text@[0] && text@.take(2)[1] == text@[1]);
        }
    }
    let scanned = if text.len() >= 2 && text[0] == '0' && (text[1] == 'x' || text[1] == 'X') {
        let digits = skip_chars(text, 2);
        scan_number(&digits, 16, u16::MAX as u64)
    } else {
        scan_number(text, 10, u16::MAX as u64)
    };
    match scanned {
        Ok(n) => Ok(n as u16),
        Err(fault) => Err(fault_message(fault)),
    }
}

/// The characters from `from` on.
fn skip_chars(text: &Vec<char>, from: usize) -> (rest: Vec<char>)
    requires
        from <= text@.len(),
    ensures
        rest@ == text@.skip(from as int),
{
    let mut rest: Vec<char> = Vec::new();
    let mut i: usize = from;
    while i < text.len()
        invariant
            from <= i <= text@.len(),
            rest@ == text@.subrange(from as int, i as int),
        decreases text@.len() - i,
    {
        rest.push(text[i]);
        i = i + 1;
        assert(rest@ =~= text@.subrange(from as int, i as int));
    }
    rest
}

/// What to pack.
#[derive(Debug)]
pub struct PackArguments {
    pub input: String,
    pub output: Option<String>,
    pub alignment: Option<u16>,
    pub p5r: bool,
    pub reuse_raw_entries: bool,
}

/// [`PackArguments`] with its texts as character sequences.
pub struct PackView {
    pub input: Seq<char>,
    pub output: Option<Seq<char>>,
    pub alignment: Option<u16>,
    pub p5r: bool,
    pub reuse_raw_entries: bool,
}

impl View for PackArguments {
    type V = PackView;

    open spec fn view(&self) -> PackView {
        PackView {
            input: self.input@,
            output: text_view(self.output),
            alignment: self.alignment,
            p5r: self.p5r,
            reuse_raw_entries: self.reuse_raw_entries,
        }
    }
}

/// The arguments of `pack` that have been looked at.
#[verifier::ext_equal]
pub struct PackParts {
    pub positional: Seq<Seq<char>>,
    pub alignment: Option<u16>,
    pub p5r: bool,
    pub reuse: bool,
}

impl PackParts {
    /// These arguments, and others behind them. A later alignment replaces an
    /// earlier one.
    pub open spec fn and(self, rest: PackParts) -> PackParts {
        PackParts {
            positional: self.positional + rest.positional,
            alignment: match rest.alignment {
                Some(a) => Some(a),
                None => self.alignment,
            },
            p5r: self.p5r || rest.p5r,
            reuse: self.reuse || rest.reuse,
        }
    }
}

/// No arguments.
pub open spec fn no_parts() -> PackParts {
    PackParts { positional: Seq::empty(), alignment: None, p5r: false, reuse: false }
}

/// The argument at `at`, with how many more it takes up.
pub open spec fn pack_part(args: Seq<Seq<char>>, at: int) -> Result<(PackParts, nat), Seq<char>> {
    let arg = args[at];
    if arg == "--align"@ {
        if at + 1 >= args.len() {
            Err("--align requires a value"@)
        } else {
            match u16_of(args[at + 1]) {
                Ok(v) => Ok((PackParts { alignment: Some(v), ..no_parts() }, 1)),
                Err(e) => Err(e),
            }
        }
    } else if has_prefix(arg, "--align="@) {
        match u16_of(arg.skip(8)) {
            Ok(v) => Ok((PackParts { alignment: Some(v), ..no_parts() }, 0)),
            Err(e) => Err(e),
        }
    } else if arg == "--p5r"@ {
        Ok((PackParts { p5r: true, ..no_parts() }, 0))
    } else if arg == "--reuse-raw-entries"@ {
        Ok((PackParts { reuse: true, ..no_parts() }, 0))
    } else if is_option(arg) {
        Err("unknown pack option: "@ + arg)
    } else {
        Ok((PackParts { positional: seq![arg], ..no_parts() }, 0))
    }
}

/// The arguments of `pack` from `from` on.
pub open spec fn pack_parts(args: Seq<Seq<char>>, from: int) -> Result<PackParts, Seq<char>>
    decreases args.len() - from,
{
    if from >= args.len() {
        Ok(no_parts())
    } else {
        match pack_part(args, from) {
            Err(e) => Err(e),
            Ok((part, more)) => match pack_parts(args, from + 1 + more) {
                Err(e) => Err(e),
                Ok(rest) => Ok(part.and(rest)),
            },
        }
    }
}

/// What the arguments from `from` on ask to pack.
pub open spec fn pack_of(args: Seq<Seq<char>>, from: int) -> Result<PackView, Seq<char>> {
    match pack_parts(args, from) {
        Err(e) => Err(e),
        Ok(parts) => if parts.positional.len() == 0 || parts.positional.len() > 2 {
            Err(
                "usage: cri-cpk-cli pack <input-dir> [output.cpk] [--align 0x800] [--p5r] [--reuse-raw-entries]"@,
            )
        } else {
            Ok(
                PackView {
                    input: parts.positional[0],
                    output: second(parts.positional),
                    alignment: parts.alignment,
                    p5r: parts.p5r,
                    reuse_raw_entries: parts.reuse,
                },
            )
        },
    }
}

/// What stands behind `--align=`.
fn inline_alignment(arg: &str) -> (value: Option<Vec<char>>)
    ensures
        match value {
            Some(v) => has_prefix(arg@, "--align="@) && v@ == arg@.skip(8),
            None => !has_prefix(arg@, "--align="@),
        },
{
    let text = to_chars(arg);
    let prefix = to_chars("--align=");
    proof {
        reveal_strlit("--align=");
    }
    if text.len() < prefix.len() {
        return None;
    }
    let mut i: usize = 0;
    while i < prefix.len()
        invariant
            i <= prefix@.len() <= text@.len(),
            text@ == arg@,
            prefix@ == "--align="@,
            forall|k: int| 0 <= k < i ==> text@[k] == #[trigger] prefix@[k],
        decreases prefix@.len() - i,
    {
        if text[i] != prefix[i] {
            assert(text@.take(prefix@.len() as int)[i as int] != prefix@[i as int]);
            return None;
        }
        i = i + 1;
    }
    assert(text@.take(prefix@.len() as int) =~= prefix@);
    Some(skip_chars(&text, 8))
}

/// What the scan of `pack` arguments up to some point found, joined with what
/// stands behind.
spec fn pack_joined(
    before: PackParts,
    rest: Result<PackParts, Seq<char>>,
) -> Result<PackParts, Seq<char>> {
    match rest {
        Ok(more) => Ok(before.and(more)),
        Err(e) => Err(e),
    }
}

/// One more argument leaves the whole as it is.
proof fn lemma_pack_step(args: Seq<Seq<char>>, at: int, before: PackParts)
    requires
        0 <= at < args.len(),
    ensures
        pack_part(args, at) is Err ==> pack_joined(before, pack_parts(args, at)) == Err::<
            PackParts,
            Seq<char>,
        >(pack_part(args, at)->Err_0),
        pack_part(args, at) matches Ok((part, more)) ==> pack_joined(
            before,
            pack_parts(args, at),
        ) == pack_joined(before.and(part), pack_parts(args, at + 1 + more)),
{
    match pack_part(args, at) {
        Ok((part, more)) => match pack_parts(args, at + 1 + more) {
            Ok(rest) => {
                assert(before.and(part.and(rest)) =~= before.and(part).and(rest));
            },
            Err(_) => {},
        },
        Err(_) => {},
    }
}

/// What the arguments from `from` on ask to pack.
pub fn parse_pack(args: &Vec<String>, from: usize) -> (r: Result<PackArguments, CliError>)
    ensures
        match pack_of(strings_view(args@), from as int) {
            Ok(v) => r matches Ok(a) && a@ == v,
            Err(e) => r matches Err(f) && f@ == e,
        },
{
    let ghost list = strings_view(args@);
    let ghost whole = pack_parts(list, from as int);
    let mut positional: Vec<String> = Vec::new();
    let mut alignment: Option<u16> = None;
    let mut p5r = false;
    let mut reuse = false;
    let ghost mut so_far = no_parts();
    let mut i: usize = from;
    proof {
        assert(strings_view(positional@) =~= Seq::empty());
        if whole is Ok {
            assert(no_parts().and(whole->Ok_0) =~= whole->Ok_0);
        }
    }
    while i < args.len()
        invariant
            list == strings_view(args@),
            whole == pack_parts(list, from as int),
            so_far == (PackParts { positional: strings_view(positional@), alignment, p5r, reuse }),
            whole == pack_joined(so_far, pack_parts(list, i as int)),
        decreases args@.len() - i,
    {
        let arg = args[i].as_str();
        let ghost part = pack_part(list, i as int);
        let ghost before = positional@;
        proof {
            assert(list[i as int] == arg@);
            lemma_pack_step(list, i as int, so_far);
            if part is Ok {
                so_far = so_far.and(part->Ok_0.0);
            }
            assert(strings_view(positional@) + Seq::<Seq<char>>::empty() =~= strings_view(
                positional@,
            ));
        }
        if str_eq(arg, "--align") {
            if i + 1 >= args.len() {
                return Err(CliError { message: "--align requires a value".to_owned() });
            }
            assert(list[i + 1] == args@[i + 1]@);
            match parse_u16(args[i + 1].as_str()) {
                Ok(value) => {
                    alignment = Some(value);
                },
                Err(e) => {
                    return Err(e);
                },
            }
            i = i + 2;
        } else {
            match inline_alignment(arg) {
                Some(value) => match parse_u16_chars(&value) {
                    Ok(value) => {
                        alignment = Some(value);
                    },
                    Err(e) => {
                        return Err(e);
                    },
                },
                None => {
                    if str_eq(arg, "--p5r") {
                        p5r = true;
                    } else if str_eq(arg, "--reuse-raw-entries") {
                        reuse = true;
                    } else if starts_as_option(arg) {
                        return Err(complaint("unknown pack option: ", arg));
                    } else {
                        positional.push(args[i].clone());
                        assert(strings_view(positional@) =~= strings_view(before) + seq![arg@]);
                    }
                },
            }
            i = i + 1;
        }
    }
    assert(so_far.and(no_parts()) =~= so_far);
    if positional.len() == 0 || positional.len() > 2 {
        return Err(
            CliError {
                message:
                    "usage: cri-cpk-cli pack <input-dir> [output.cpk] [--align 0x800] [--p5r] [--reuse-raw-entries]".to_owned(),
            },
        );
    }
    Ok(
        PackArguments {
            input: positional[0].clone(),
            output: second_of(&positional),
            alignment,
            p5r,
            reuse_raw_entries: reuse,
        },
    )
}

} // verus!
