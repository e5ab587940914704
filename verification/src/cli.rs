//! The command line.

use vstd::prelude::*;
use vstd::string::*;

use crate::text;

verus! {

// ---- arguments ------------------------------------------------------------------------------

/// Where `name` first stands among the arguments from `i` on.
pub open spec fn arg_from(args: Seq<Seq<char>>, name: Seq<char>, i: int) -> Option<int>
    decreases args.len() - i,
{
    if i < 0 || i >= args.len() {
        None
    } else if args[i] == name {
        Some(i)
    } else {
        arg_from(args, name, i + 1)
    }
}

fn place_of(args: &Vec<String>, name: &str) -> (r: Option<usize>)
    ensures
        match r {
            Some(i) => arg_from(text::strings(args@), name@, 0) == Some(i as int) && i < args@.len(),
            None => arg_from(text::strings(args@), name@, 0) is None,
        },
{
    let ghost all = text::strings(args@);
    let mut i: usize = 0;
    while i < args.len()
        invariant
            i <= args@.len(),
            all == text::strings(args@),
            arg_from(all, name@, 0) == arg_from(all, name@, i as int),
        decreases args@.len() - i,
    {
        assert(all[i as int] == args@[i as int]@);
        if text::same_str(&text::chars_of(&args[i]), name) {
            return Some(i);
        }
        i += 1;
    }
    None
}

/// A flag was given.
pub open spec fn has_flag(args: Seq<Seq<char>>, name: Seq<char>) -> bool {
    args.contains(name)
}

proof fn lemma_arg_from(args: Seq<Seq<char>>, name: Seq<char>, i: int)
    requires
        0 <= i <= args.len(),
    ensures
        match arg_from(args, name, i) {
            Some(k) => i <= k < args.len() && args[k] == name,
            None => forall|j: int| i <= j < args.len() ==> #[trigger] args[j] != name,
        },
    decreases args.len() - i,
{
    if i < args.len() && args[i] != name {
        lemma_arg_from(args, name, i + 1);
    }
}

pub fn flag(args: &Vec<String>, name: &str) -> (r: bool)
    ensures
        r == has_flag(text::strings(args@), name@),
{
    proof {
        lemma_arg_from(text::strings(args@), name@, 0);
    }
    place_of(args, name).is_some()
}

/// The value of an option: the argument after the first that is its name.
pub open spec fn option_of(args: Seq<Seq<char>>, name: Seq<char>) -> Option<Seq<char>> {
    match arg_from(args, name, 0) {
        Some(i) => if i + 1 < args.len() {
            Some(args[i + 1])
        } else {
            None
        },
        None => None,
    }
}

pub fn opt(args: &Vec<String>, name: &str) -> (r: Option<String>)
    ensures
        text::text_opt(r) == option_of(text::strings(args@), name@),
{
    match place_of(args, name) {
        Some(i) => {
            let n: usize = args.len();
            if i < n - 1 {
                assert(text::strings(args@)[i + 1] == args@[i + 1]@);
                Some(args[i + 1].clone())
            } else {
                None
            }
        },
        None => None,
    }
}

/// It is no option or flag.
pub open spec fn is_plain(arg: Seq<char>) -> bool {
    !text::starts_with(arg, "--"@)
}

/// What the command is about: its first argument, unless that is an option.
pub open spec fn subject_of(args: Seq<Seq<char>>) -> Option<Seq<char>> {
    if args.len() > 0 && is_plain(args[0]) {
        Some(args[0])
    } else {
        None
    }
}

pub fn subject(args: &Vec<String>) -> (r: Option<String>)
    ensures
        text::text_opt(r) == subject_of(text::strings(args@)),
{
    if args.len() == 0 {
        return None;
    }
    assert(text::strings(args@)[0] == args@[0]@);
    if text::begins(&text::chars_of(&args[0]), "--") {
        None
    } else {
        Some(args[0].clone())
    }
}

/// The first argument from `i` on that is no option.
pub open spec fn plain_from(args: Seq<Seq<char>>, i: int) -> Option<Seq<char>>
    decreases args.len() - i,
{
    if i < 0 || i >= args.len() {
        None
    } else if is_plain(args[i]) {
        Some(args[i])
    } else {
        plain_from(args, i + 1)
    }
}

pub fn first_plain(args: &Vec<String>) -> (r: Option<String>)
    ensures
        text::text_opt(r) == plain_from(text::strings(args@), 0),
{
    let ghost all = text::strings(args@);
    let mut i: usize = 0;
    while i < args.len()
        invariant
            i <= args@.len(),
            all == text::strings(args@),
            plain_from(all, 0) == plain_from(all, i as int),
        decreases args@.len() - i,
    {
        assert(all[i as int] == args@[i as int]@);
        if !text::begins(&text::chars_of(&args[i]), "--") {
            return Some(args[i].clone());
        }
        i += 1;
    }
    None
}

// ---- commands -------------------------------------------------------------------------------

#[derive(Debug, Clone, Copy, PartialEq, Eq, Structural)]
pub enum Command {
    Hash,
    Inspect,
    Update,
    Networks,
    List,
    Images,
    Get,
    Write,
    Verify,
    Version,
    Usage,
}

/// The command that a word stands for.
pub open spec fn command_of(word: Seq<char>) -> Command {
    if word == "hash"@ {
        Command::Hash
    } else if word == "inspect"@ || word == "scheme"@ {
        Command::Inspect
    } else if word == "update"@ || word == "self-update"@ {
        Command::Update
    } else if word == "net"@ || word == "networks"@ {
        Command::Networks
    } else if word == "list"@ || word == "ls"@ || word == "devices"@ {
        Command::List
    } else if word == "iso"@ || word == "images"@ || word == "catalog"@ {
        Command::Images
    } else if word == "get"@ || word == "fetch"@ || word == "download"@ {
        Command::Get
    } else if word == "write"@ || word == "burn"@ || word == "w"@ {
        Command::Write
    } else if word == "verify"@ || word == "check"@ {
        Command::Verify
    } else if word == "--version"@ || word == "-V"@ {
        Command::Version
    } else {
        Command::Usage
    }
}

/// The command that the first argument, if any, stands for.
pub fn command(word: &Option<String>) -> (r: Command)
    ensures
        r == (match word {
            Some(w) => command_of(w@),
            None => Command::Usage,
        }),
{
    let w: Vec<char> = match word {
        Some(x) => text::chars_of(x),
        None => {
            return Command::Usage;
        },
    };
    if text::same_str(&w, "hash") {
        Command::Hash
    } else if text::same_str(&w, "inspect") || text::same_str(&w, "scheme") {
        Command::Inspect
    } else if text::same_str(&w, "update") || text::same_str(&w, "self-update") {
        Command::Update
    } else if text::same_str(&w, "net") || text::same_str(&w, "networks") {
        Command::Networks
    } else if text::same_str(&w, "list") || text::same_str(&w, "ls") || text::same_str(
        &w,
        "devices",
    ) {
        Command::List
    } else if text::same_str(&w, "iso") || text::same_str(&w, "images") || text::same_str(
        &w,
        "catalog",
    ) {
        Command::Images
    } else if text::same_str(&w, "get") || text::same_str(&w, "fetch") || text::same_str(
        &w,
        "download",
    ) {
        Command::Get
    } else if text::same_str(&w, "write") || text::same_str(&w, "burn") || text::same_str(&w, "w") {
        Command::Write
    } else if text::same_str(&w, "verify") || text::same_str(&w, "check") {
        Command::Verify
    } else if text::same_str(&w, "--version") || text::same_str(&w, "-V") {
        Command::Version
    } else {
        Command::Usage
    }
}

// ---- block size -----------------------------------------------------------------------------

/// The size of the blocks in which files are read and written: what the environment says, between
/// 64 KiB and 64 MiB, or else 8 MiB.
pub open spec fn block_bytes(variable: Option<Seq<char>>) -> usize {
    match variable {
        Some(v) => match text::parse_usize(v) {
            Some(n) => if n < 0x1_0000 {
                0x1_0000
            } else if n > 0x400_0000 {
                0x400_0000
            } else {
                n
            },
            None => 0x80_0000,
        },
        None => 0x80_0000,
    }
}

/// Read and write in big blocks. A USB stick writes far faster in megabyte-sized chunks than in
/// the 512 byte ones dd defaults to, and the cost is only a few megabytes of RAM.
pub fn block_size(variable: &Option<String>) -> (r: usize)
    ensures
        r == block_bytes(text::text_opt(*variable)),
{
    match variable {
        Some(v) => match text::number_usize(&text::chars_of(v)) {
            Some(n) => if n < 0x1_0000 {
                0x1_0000
            } else if n > 0x400_0000 {
                0x400_0000
            } else {
                n
            },
            None => 0x80_0000,
        },
        None => 0x80_0000,
    }
}

/// How much to read next when `left` bytes are left and the buffer holds `room`.
pub fn next_chunk(left: u64, room: usize) -> (r: usize)
    ensures
        r == (if left < room {
            left as usize
        } else {
            room
        }),
{
    if left < room as u64 {
        left as usize
    } else {
        room
    }
}

// ---- what the command line says, in full ----------------------------------------------------

/// The value of an option is what follows the first time that it is given, and one that is not given, or
/// that nothing follows, has none.
pub proof fn law_an_option_has_what_follows_it(
    before: Seq<Seq<char>>,
    name: Seq<char>,
    value: Seq<char>,
    after: Seq<Seq<char>>,
)
    requires
        !before.contains(name),
    ensures
        option_of(before + seq![name, value] + after, name) == Some(value),
        option_of(before.push(name), name) is None,
        option_of(before, name) is None,
        has_flag(before + seq![name] + after, name),
        !has_flag(before, name),
{
    let all = before + seq![name, value] + after;
    let n = before.len() as int;
    assert(all[n] == name && all[n + 1] == value);
    assert forall|i: int| 0 <= i < n implies #[trigger] all[i] != name by {
        assert(all[i] == before[i]);
    }
    lemma_arg_at(all, name, 0, n);
    let short = before.push(name);
    assert forall|i: int| 0 <= i < n implies #[trigger] short[i] != name by {
        assert(short[i] == before[i]);
    }
    lemma_arg_at(short, name, 0, n);
    lemma_no_arg(before, name, 0);
    assert((before + seq![name] + after)[n] == name);
}

proof fn lemma_arg_at(args: Seq<Seq<char>>, name: Seq<char>, i: int, k: int)
    requires
        0 <= i <= k < args.len(),
        args[k] == name,
        forall|j: int| i <= j < k ==> #[trigger] args[j] != name,
    ensures
        arg_from(args, name, i) == Some(k),
    decreases k - i,
{
    if i < k {
        lemma_arg_at(args, name, i + 1, k);
    }
}

proof fn lemma_no_arg(args: Seq<Seq<char>>, name: Seq<char>, i: int)
    requires
        0 <= i,
        !args.contains(name),
    ensures
        arg_from(args, name, i) is None,
    decreases args.len() - i,
{
    if i < args.len() {
        assert(args.contains(args[i]));
        lemma_no_arg(args, name, i + 1);
    }
}

/// An argument that begins with two dashes is never what a command is about; the first that does not is.
pub proof fn law_dashes_mark_an_option(
    before: Seq<Seq<char>>,
    x: Seq<char>,
    after: Seq<Seq<char>>,
    rest: Seq<char>,
)
    requires
        x.len() < 2 || x[0] != '-' || x[1] != '-',
        forall|i: int|
            0 <= i < before.len() ==> (#[trigger] before[i]).len() >= 2 && before[i][0] == '-'
                && before[i][1] == '-',
    ensures
        subject_of(seq![x] + after) == Some(x),
        subject_of(seq![seq!['-', '-'] + rest] + after) is None,
        subject_of(Seq::empty()) is None,
        plain_from(before + seq![x] + after, 0) == Some(x),
        plain_from(before, 0) is None,
{
    reveal_strlit("--");
    lemma_dashes(x);
    let d = seq!['-', '-'] + rest;
    lemma_dashes(d);
    assert((seq![x] + after)[0] == x);
    assert((seq![d] + after)[0] == d);
    let all = before + seq![x] + after;
    let n = before.len() as int;
    assert(all[n] == x);
    assert forall|i: int| 0 <= i < n implies !is_plain(#[trigger] before[i]) by {
        lemma_dashes(before[i]);
    }
    assert forall|i: int| 0 <= i < n implies !is_plain(#[trigger] all[i]) by {
        assert(all[i] == before[i]);
    }
    lemma_plain_at(all, 0, n);
    lemma_no_plain(before, 0);
}

proof fn lemma_dashes(x: Seq<char>)
    ensures
        is_plain(x) <==> x.len() < 2 || x[0] != '-' || x[1] != '-',
{
    reveal_strlit("--");
    if x.len() >= 2 {
        assert(x.subrange(0, 2)[0] == x[0] && x.subrange(0, 2)[1] == x[1]);
        assert("--"@[0] == '-' && "--"@[1] == '-');
        if x[0] == '-' && x[1] == '-' {
            assert(x.subrange(0, 2) =~= "--"@);
        }
    }
}

proof fn lemma_plain_at(args: Seq<Seq<char>>, i: int, k: int)
    requires
        0 <= i <= k < args.len(),
        is_plain(args[k]),
        forall|j: int| i <= j < k ==> !is_plain(#[trigger] args[j]),
    ensures
        plain_from(args, i) == Some(args[k]),
    decreases k - i,
{
    if i < k {
        lemma_plain_at(args, i + 1, k);
    }
}

proof fn lemma_no_plain(args: Seq<Seq<char>>, i: int)
    requires
        0 <= i,
        forall|j: int| 0 <= j < args.len() ==> !is_plain(#[trigger] args[j]),
    ensures
        plain_from(args, i) is None,
    decreases args.len() - i,
{
    if i < args.len() {
        lemma_no_plain(args, i + 1);
    }
}

/// The block size that is asked for is used as it is between 64 KiB and 64 MiB, and the nearer of the two
/// outside; without one, or with one that is no number, it is 8 MiB.
pub proof fn law_the_block_size_stays_in_bounds(n: usize, s: Seq<char>)
    ensures
        64 * 1024 <= n <= 64 * 1024 * 1024 ==> block_bytes(Some(text::decimal(n as nat))) == n,
        n < 64 * 1024 ==> block_bytes(Some(text::decimal(n as nat))) == 64 * 1024,
        n > 64 * 1024 * 1024 ==> block_bytes(Some(text::decimal(n as nat))) == 64 * 1024 * 1024,
        block_bytes(None) == 8 * 1024 * 1024,
        s.len() == 0 || !(forall|i: int|
            0 <= i < s.len() ==> ('0' <= #[trigger] s[i] && s[i] <= '9') || s[i] == '+')
            ==> block_bytes(Some(s)) == 8 * 1024 * 1024,
        64 * 1024 <= block_bytes(Some(s)) <= 64 * 1024 * 1024,
{
    text::lemma_decimal(n as nat);
    if text::parse_usize(s) is Some {
        assert(text::parse_upto(s, usize::MAX as nat) is Some);
        text::lemma_number_shape(s, usize::MAX as nat);
    }
}

/// Each command has its words and no others, and whatever is no command shows how to use the program.
pub proof fn law_each_command_has_its_words(word: Seq<char>)
    ensures
        command_of(word) is Write <==> word == "write"@ || word == "burn"@ || word == "w"@,
        command_of(word) is Verify <==> word == "verify"@ || word == "check"@,
        command_of(word) is Get <==> word == "get"@ || word == "fetch"@ || word == "download"@,
        command_of(word) is List <==> word == "list"@ || word == "ls"@ || word == "devices"@,
        command_of(word) is Images <==> word == "iso"@ || word == "images"@ || word == "catalog"@,
        command_of(word) is Hash <==> word == "hash"@,
        command_of(word) is Inspect <==> word == "inspect"@ || word == "scheme"@,
        command_of(word) is Update <==> word == "update"@ || word == "self-update"@,
        command_of(word) is Networks <==> word == "net"@ || word == "networks"@,
        command_of(word) is Version <==> word == "--version"@ || word == "-V"@,
{
    reveal_strlit("write");
    reveal_strlit("burn");
    reveal_strlit("w");
    reveal_strlit("verify");
    reveal_strlit("check");
    reveal_strlit("get");
    reveal_strlit("fetch");
    reveal_strlit("download");
    reveal_strlit("list");
    reveal_strlit("ls");
    reveal_strlit("devices");
    reveal_strlit("iso");
    reveal_strlit("images");
    reveal_strlit("catalog");
    reveal_strlit("hash");
    reveal_strlit("inspect");
    reveal_strlit("scheme");
    reveal_strlit("update");
    reveal_strlit("self-update");
    reveal_strlit("net");
    reveal_strlit("networks");
    reveal_strlit("--version");
    reveal_strlit("-V");
    assert("write"@[0] == 'w' && "write"@.len() == 5 && "burn"@[0] == 'b' && "w"@.len() == 1);
    assert("verify"@[0] == 'v' && "check"@[0] == 'c' && "check"@[1] == 'h');
    assert("get"@[0] == 'g' && "fetch"@[0] == 'f' && "download"@[0] == 'd' && "download"@[1] == 'o');
    assert("list"@[0] == 'l' && "list"@[1] == 'i' && "ls"@[0] == 'l' && "ls"@[1] == 's' && "devices"@[0]
        == 'd' && "devices"@[1] == 'e');
    assert("iso"@[0] == 'i' && "iso"@[1] == 's' && "images"@[0] == 'i' && "images"@[1] == 'm'
        && "catalog"@[0] == 'c' && "catalog"@[1] == 'a');
    assert("hash"@[0] == 'h' && "inspect"@[0] == 'i' && "inspect"@[1] == 'n' && "scheme"@[0] == 's'
        && "scheme"@[1] == 'c');
    assert("update"@[0] == 'u' && "self-update"@[0] == 's' && "self-update"@[1] == 'e');
    assert("net"@[0] == 'n' && "net"@.len() == 3 && "networks"@[0] == 'n' && "networks"@.len() == 8);
    assert("--version"@[0] == '-' && "--version"@[1] == '-' && "-V"@[0] == '-' && "-V"@[1] == 'V');
}

} // verus!
