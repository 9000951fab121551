//! What arguments ask for, wherever they stand.

use vstd::prelude::*;

use crate::cli::arguments::{
    based_digits, command_of, has_prefix, is_option, pack_of, pack_part, pack_parts, u16_of,
    unpack_of, unpack_parts, PackParts, PackView,
};
use crate::cli::pack::{fresh_options_of, rebuild_options_of};
use crate::cpk::message_laws::{lemma_tells, tells};
use crate::manifest::fields::law_faultless_numerals_are_numbers;
use crate::manifest::laws::lemma_numeral;
use crate::manifest::model::ManifestView;
use crate::manifest::numeral_laws::lemma_numeral_number;
use crate::utils::text::numeral;

verus! {

/// A number is read from its decimal numeral, and from its hexadecimal one with
/// `0x` in front.
pub proof fn law_numbers_are_decimal_or_hexadecimal(v: u16)
    ensures
        u16_of(numeral(v as nat, 10)) == Ok::<u16, Seq<char>>(v),
        u16_of("0x"@ + numeral(v as nat, 16)) == Ok::<u16, Seq<char>>(v),
        u16_of("0X"@ + numeral(v as nat, 16)) == Ok::<u16, Seq<char>>(v),
{
    reveal_strlit("0x");
    reveal_strlit("0X");
    assert("0x"@ =~= seq!['0', 'x']);
    assert("0X"@ =~= seq!['0', 'X']);
    let limit = u16::MAX as int;
    let plain = numeral(v as nat, 10);
    let hex = numeral(v as nat, 16);
    lemma_numeral(v as nat, 10);
    lemma_numeral_number(v as nat, 10, limit);
    lemma_numeral_number(v as nat, 16, limit);
    law_faultless_numerals_are_numbers(plain, 10, limit);
    law_faultless_numerals_are_numbers(hex, 16, limit);
    if plain.len() >= 2 {
        assert(plain.take(2)[1] == plain[1]);
    }
    assert(based_digits(plain) == (plain, 10int));
    let lower = "0x"@ + hex;
    let upper = "0X"@ + hex;
    assert(lower.take(2) =~= "0x"@ && lower.skip(2) =~= hex);
    assert(upper.take(2) =~= "0X"@ && upper.skip(2) =~= hex);
}

/// Both groups of arguments, in this order: names follow each other, a later
/// alignment replaces an earlier one, and what one asks for is asked for.
pub open spec fn put_together(a: PackParts, b: PackParts, both: PackParts) -> bool {
    &&& both.positional == a.positional + b.positional
    &&& b.alignment is Some ==> both.alignment == b.alignment
    &&& b.alignment is None ==> both.alignment == a.alignment
    &&& both.p5r <==> a.p5r || b.p5r
    &&& both.reuse <==> a.reuse || b.reuse
}

/// Arguments behind others are read as they are alone.
proof fn lemma_pack_behind(a: Seq<Seq<char>>, b: Seq<Seq<char>>, k: int)
    requires
        0 <= k <= b.len(),
    ensures
        pack_parts(a + b, a.len() + k) == pack_parts(b, k),
    decreases b.len() - k,
{
    if k < b.len() {
        let whole = a + b;
        assert(whole[a.len() + k] == b[k]);
        if k + 1 < b.len() {
            assert(whole[a.len() + k + 1] == b[k + 1]);
        }
        assert(pack_part(whole, a.len() + k) == pack_part(b, k));
        match pack_part(b, k) {
            Ok((_, more)) => {
                lemma_pack_behind(a, b, k + 1 + more);
            },
            Err(_) => {},
        }
    }
}

proof fn lemma_pack_in_front(a: Seq<Seq<char>>, b: Seq<Seq<char>>, from: int)
    requires
        0 <= from <= a.len(),
        pack_parts(a, from) is Ok,
    ensures
        pack_parts(b, 0) matches Ok(rest) ==> (pack_parts(a + b, from) matches Ok(both)
            && put_together(pack_parts(a, from)->Ok_0, rest, both)),
        pack_parts(b, 0) matches Err(e) ==> pack_parts(a + b, from) == Err::<PackParts, Seq<char>>(
            e,
        ),
    decreases a.len() - from,
{
    let whole = a + b;
    if from == a.len() {
        lemma_pack_behind(a, b, 0);
        if pack_parts(b, 0) is Ok {
            let rest = pack_parts(b, 0)->Ok_0;
            assert(pack_parts(a, from)->Ok_0.positional + rest.positional =~= rest.positional);
        }
    } else {
        assert(whole[from] == a[from]);
        if from + 1 < a.len() {
            assert(whole[from + 1] == a[from + 1]);
        }
        assert(pack_part(a, from) is Ok);
        assert(pack_part(whole, from) == pack_part(a, from));
        let (part, more) = pack_part(a, from)->Ok_0;
        assert(from + 1 + more <= a.len());
        lemma_pack_in_front(a, b, from + 1 + more);
        let tail = pack_parts(a, from + 1 + more)->Ok_0;
        if pack_parts(b, 0) is Ok {
            let rest = pack_parts(b, 0)->Ok_0;
            let after = pack_parts(whole, from + 1 + more)->Ok_0;
            assert(part.positional + tail.positional + rest.positional =~= part.positional + (
            tail.positional + rest.positional));
        }
    }
}

/// The arguments of `pack` add up: those in front and those behind ask for what
/// each ask for alone, and what is wrong with those behind is told.
pub proof fn law_pack_arguments_add_up(a: Seq<Seq<char>>, b: Seq<Seq<char>>)
    requires
        pack_parts(a, 0) is Ok,
    ensures
        pack_parts(b, 0) matches Ok(rest) ==> (pack_parts(a + b, 0) matches Ok(both)
            && put_together(pack_parts(a, 0)->Ok_0, rest, both)),
        pack_parts(b, 0) matches Err(e) ==> pack_parts(a + b, 0) == Err::<PackParts, Seq<char>>(e),
{
    lemma_pack_in_front(a, b, 0);
}

/// The literals of the options of `pack`.
proof fn lemma_pack_options()
    ensures
        "--align"@.len() == 7 && "--align"@[0] == '-',
        "--align="@.len() == 8 && "--align="@[0] == '-',
        "--p5r"@.len() == 5 && "--p5r"@[0] == '-',
        "--reuse-raw-entries"@.len() == 19 && "--reuse-raw-entries"@[0] == '-',
        "--reuse-raw-entries"@[2] == 'r',
        "--align="@[2] == 'a',
{
    reveal_strlit("--align");
    reveal_strlit("--align=");
    reveal_strlit("--p5r");
    reveal_strlit("--reuse-raw-entries");
}

/// What each argument of `pack` asks for by itself: a name is taken as it is,
/// `--p5r` and `--reuse-raw-entries` are asked for, and other options are refused.
pub proof fn law_single_pack_arguments(arg: Seq<char>)
    ensures
        ({
            let alone = pack_parts(seq![arg], 0);
            &&& !is_option(arg) ==> (alone matches Ok(p) && p.positional == seq![arg]
                && p.alignment is None && !p.p5r && !p.reuse)
            &&& arg == "--p5r"@ ==> (alone matches Ok(p) && p.positional.len() == 0 && p.alignment
                is None && p.p5r && !p.reuse)
            &&& arg == "--reuse-raw-entries"@ ==> (alone matches Ok(p) && p.positional.len() == 0
                && p.alignment is None && !p.p5r && p.reuse)
            &&& arg == "--align"@ ==> alone is Err
            &&& is_option(arg) && arg != "--p5r"@ && arg != "--reuse-raw-entries"@ && !has_prefix(
                arg,
                "--align="@,
            ) ==> alone is Err
        }),
        arg.len() > 0 && arg[0] == '-' <==> is_option(arg),
{
    let args = seq![arg];
    lemma_pack_options();
    reveal_with_fuel(pack_parts, 2);
    assert(args[0] == arg);
    assert(pack_parts(args, 1) is Ok);
    if has_prefix(arg, "--align="@) {
        assert(arg.take(8)[0] == arg[0]);
        assert(arg.take(8)[2] == arg[2]);
    }
    let empty = Seq::<Seq<char>>::empty();
    assert(seq![arg] + empty =~= seq![arg]);
    assert(empty + empty =~= empty);
}

/// An alignment that is asked for is the number behind `--align`, in the next
/// argument or behind an equals sign; what is no number is refused.
pub proof fn law_alignment_arguments(text: Seq<char>)
    ensures
        ({
            let apart = pack_parts(seq!["--align"@, text], 0);
            let joined = pack_parts(seq!["--align="@ + text], 0);
            match u16_of(text) {
                Ok(v) => {
                    &&& apart matches Ok(p) && p.alignment == Some(v) && p.positional.len() == 0
                        && !p.p5r && !p.reuse
                    &&& joined matches Ok(q) && q.alignment == Some(v) && q.positional.len() == 0
                        && !q.p5r && !q.reuse
                },
                Err(e) => {
                    &&& apart == Err::<PackParts, Seq<char>>(e)
                    &&& joined == Err::<PackParts, Seq<char>>(e)
                },
            }
        }),
{
    lemma_pack_options();
    reveal_with_fuel(pack_parts, 2);
    let apart = seq!["--align"@, text];
    let word = "--align="@ + text;
    let joined = seq![word];
    assert(apart[0] == "--align"@ && apart[1] == text);
    assert(joined[0] == word);
    assert(word.take(8) =~= "--align="@);
    assert(word.skip(8) =~= text);
    assert(word.len() >= 8);
    assert(pack_parts(apart, 2) is Ok);
    assert(pack_parts(joined, 1) is Ok);
    let empty = Seq::<Seq<char>>::empty();
    assert(empty + empty =~= empty);
}

/// `pack` takes one name or two, in this order: what to pack, and the archive.
pub proof fn law_pack_names(args: Seq<Seq<char>>)
    requires
        pack_parts(args, 0) is Ok,
    ensures
        ({
            let p = pack_parts(args, 0)->Ok_0;
            let n = p.positional.len();
            &&& pack_of(args, 0) is Ok <==> n == 1 || n == 2
            &&& pack_of(args, 0) matches Ok(v) ==> {
                &&& v.input == p.positional[0]
                &&& n == 1 ==> v.output is None
                &&& n == 2 ==> v.output == Some(p.positional[1])
                &&& v.alignment == p.alignment
                &&& v.p5r == p.p5r
                &&& v.reuse_raw_entries == p.reuse
            }
        }),
{
}

/// The alignment that the arguments give is the one that the archive gets, with a
/// manifest and without; without an argument it is that of the manifest, or
/// 0x800.
pub proof fn law_alignment_asked_for_is_used(m: ManifestView, args: PackView, over_source: bool)
    ensures
        fresh_options_of(args) is Ok <==> !args.reuse_raw_entries,
        rebuild_options_of(m, args, over_source) is Ok <==> !(args.reuse_raw_entries
            && over_source),
        fresh_options_of(args) matches Ok(o) ==> {
            &&& args.alignment is Some ==> Some(o.alignment) == args.alignment
            &&& args.alignment is None ==> o.alignment == 0x800
            &&& o.p5r_encryption == args.p5r
        },
        rebuild_options_of(m, args, over_source) matches Ok(o) ==> {
            &&& args.alignment is Some ==> Some(o.alignment) == args.alignment
            &&& args.alignment is None && m.alignment > 0 ==> o.alignment == m.alignment
            &&& args.alignment is None && m.alignment == 0 ==> o.alignment == 1
            &&& o.p5r_encryption == (m.p5r || args.p5r)
        },
{
}

/// Wherever `--align` stands, unless another one stands behind it, the archive is
/// aligned to the number behind it.
pub proof fn law_alignment_on_the_command_line_is_used(
    front: Seq<Seq<char>>,
    text: Seq<char>,
    back: Seq<Seq<char>>,
    alignment: u16,
    m: ManifestView,
    over_source: bool,
)
    requires
        pack_parts(front, 0) is Ok,
        u16_of(text) == Ok::<u16, Seq<char>>(alignment),
        pack_parts(back, 0) matches Ok(rest) && rest.alignment is None,
    ensures
        pack_of(front + seq!["--align"@, text] + back, 0) matches Ok(args) ==> {
            &&& fresh_options_of(args) matches Ok(o) ==> o.alignment == alignment
            &&& rebuild_options_of(m, args, over_source) matches Ok(o) ==> o.alignment == alignment
        },
        pack_of(front + seq!["--align="@ + text] + back, 0) matches Ok(args) ==> {
            &&& fresh_options_of(args) matches Ok(o) ==> o.alignment == alignment
            &&& rebuild_options_of(m, args, over_source) matches Ok(o) ==> o.alignment == alignment
        },
{
    law_alignment_arguments(text);
    law_pack_arguments_add_up(front, seq!["--align"@, text]);
    law_pack_arguments_add_up(front + seq!["--align"@, text], back);
    law_pack_arguments_add_up(front, seq!["--align="@ + text]);
    law_pack_arguments_add_up(front + seq!["--align="@ + text], back);
}

/// Arguments of `unpack` behind others are read as they are alone.
proof fn lemma_unpack_behind(a: Seq<Seq<char>>, b: Seq<Seq<char>>, k: int)
    requires
        0 <= k <= b.len(),
    ensures
        unpack_parts(a + b, a.len() + k) == unpack_parts(b, k),
    decreases b.len() - k,
{
    if k < b.len() {
        assert((a + b)[a.len() + k] == b[k]);
        lemma_unpack_behind(a, b, k + 1);
    }
}

proof fn lemma_unpack_in_front(a: Seq<Seq<char>>, b: Seq<Seq<char>>, from: int)
    requires
        0 <= from <= a.len(),
        unpack_parts(a, from) is Ok,
    ensures
        unpack_parts(b, 0) matches Ok((names, p5r)) ==> unpack_parts(a + b, from) == Ok::<
            (Seq<Seq<char>>, bool),
            Seq<char>,
        >((unpack_parts(a, from)->Ok_0.0 + names, unpack_parts(a, from)->Ok_0.1 || p5r)),
        unpack_parts(b, 0) matches Err(e) ==> unpack_parts(a + b, from) == Err::<
            (Seq<Seq<char>>, bool),
            Seq<char>,
        >(e),
    decreases a.len() - from,
{
    if from == a.len() {
        lemma_unpack_behind(a, b, 0);
        if unpack_parts(b, 0) is Ok {
            let names = unpack_parts(b, 0)->Ok_0.0;
            assert(unpack_parts(a, from)->Ok_0.0 + names =~= names);
        }
    } else {
        assert((a + b)[from] == a[from]);
        lemma_unpack_in_front(a, b, from + 1);
        if unpack_parts(b, 0) is Ok {
            let names = unpack_parts(b, 0)->Ok_0.0;
            let tail = unpack_parts(a, from + 1)->Ok_0.0;
            assert(seq![a[from]] + tail + names =~= seq![a[from]] + (tail + names));
        }
    }
}

/// The arguments of `unpack` add up: names follow each other, `--p5r` is asked
/// for wherever it stands, and another option is refused and told. One name or two
/// are taken: the archive, and the directory to unpack to.
pub proof fn law_unpack_arguments_add_up(a: Seq<Seq<char>>, arg: Seq<char>)
    requires
        unpack_parts(a, 0) is Ok,
    ensures
        ({
            let (names, p5r) = unpack_parts(a, 0)->Ok_0;
            let more = unpack_parts(a.push(arg), 0);
            &&& !is_option(arg) ==> more == Ok::<(Seq<Seq<char>>, bool), Seq<char>>(
                (names.push(arg), p5r),
            )
            &&& arg == "--p5r"@ ==> more == Ok::<(Seq<Seq<char>>, bool), Seq<char>>((names, true))
            &&& is_option(arg) && arg != "--p5r"@ ==> (more matches Err(e) && tells(e, arg))
            &&& unpack_of(a, 0) is Ok <==> names.len() == 1 || names.len() == 2
            &&& unpack_of(a, 0) matches Ok(v) ==> {
                &&& v.input == names[0]
                &&& names.len() == 1 ==> v.output is None
                &&& names.len() == 2 ==> v.output == Some(names[1])
                &&& v.p5r == p5r
            }
        }),
        unpack_parts(Seq::empty(), 0) == Ok::<(Seq<Seq<char>>, bool), Seq<char>>(
            (Seq::empty(), false),
        ),
{
    let b = seq![arg];
    let names = unpack_parts(a, 0)->Ok_0.0;
    let empty = Seq::<Seq<char>>::empty();
    let empty_text = Seq::<char>::empty();
    reveal_strlit("--p5r");
    reveal_with_fuel(unpack_parts, 2);
    assert(b[0] == arg);
    assert(unpack_parts(b, 1) == Ok::<(Seq<Seq<char>>, bool), Seq<char>>((empty, false)));
    assert(seq![arg] + empty =~= b);
    lemma_unpack_in_front(a, b, 0);
    assert(a + b =~= a.push(arg));
    assert(names + b =~= names.push(arg));
    lemma_tells("unknown unpack option: "@, arg, empty_text);
    assert(names + empty =~= names);
}

/// What to do depends on the first argument alone. An archive by itself, whatever
/// the case of its ending, is unpacked, and nothing else is unpacked without the
/// command; the usage is told where help or nothing is asked for.
pub proof fn law_archives_are_unpacked(
    name: Seq<char>,
    c: char,
    p: char,
    k: char,
    rest: Seq<Seq<char>>,
    other: Seq<Seq<char>>,
)
    requires
        c == 'c' || c == 'C',
        p == 'p' || p == 'P',
        k == 'k' || k == 'K',
    ensures
        command_of(seq![name + seq!['.', c, p, k]] + rest) is UnpackPath,
        command_of(seq![name] + rest) == command_of(seq![name] + other),
        command_of(seq![name] + rest) is UnpackPath ==> name.len() >= 4 && name[name.len() - 4]
            == '.' && (name[name.len() - 3] == 'c' || name[name.len() - 3] == 'C') && (
        name[name.len() - 2] == 'p' || name[name.len() - 2] == 'P') && (name.last() == 'k'
            || name.last() == 'K'),
        command_of(seq!["help"@] + rest) is Usage,
        command_of(seq!["--help"@] + rest) is Usage,
        command_of(seq!["-h"@] + rest) is Usage,
        command_of(seq![name] + rest) is Usage ==> name == "help"@ || name == "--help"@ || name
            == "-h"@,
        command_of(seq!["unpack"@] + rest) is Unpack,
        command_of(seq!["pack"@] + rest) is Pack,
        command_of(Seq::empty()) is Usage,
{
    let word = name + seq!['.', c, p, k];
    let n = word.len() as int;
    reveal_strlit("unpack");
    reveal_strlit("pack");
    reveal_strlit("help");
    reveal_strlit("--help");
    reveal_strlit("-h");
    assert((seq![word] + rest)[0] == word);
    assert((seq![name] + rest)[0] == name);
    assert((seq![name] + other)[0] == name);
    assert((seq!["unpack"@] + rest)[0] == "unpack"@);
    assert((seq!["pack"@] + rest)[0] == "pack"@);
    assert((seq!["help"@] + rest)[0] == "help"@);
    assert((seq!["--help"@] + rest)[0] == "--help"@);
    assert((seq!["-h"@] + rest)[0] == "-h"@);
    assert(word[n - 4] == '.' && word[n - 3] == c && word[n - 2] == p && word[n - 1] == k);
    assert("unpack"@.len() == 6 && "unpack"@[2] == 'p');
    assert("pack"@.len() == 4 && "pack"@[0] == 'p');
    assert("help"@.len() == 4 && "help"@[0] == 'h');
    assert("--help"@.len() == 6 && "--help"@[2] == 'h');
    assert("-h"@.len() == 2);
    assert("unpack"@ != "pack"@);
    if n == 4 {
        assert(word[0] == '.');
    }
    if n == 6 {
        assert(word[2] == '.');
    }
}

} // verus!
