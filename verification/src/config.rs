//! Builder configuration for the bootable image: targets, defaults, and
//! command-line argument parsing (the arguments themselves are read by the
//! surrounding program and handed in as plain strings).

use vstd::prelude::*;

verus! {

/// Default block size written into the super block.
pub const DEFAULT_BLOCK_SIZE: u16 = 512;

/// Size of disk sectors; the format is defined around it.
pub const SECTOR_SIZE: usize = 512;

/// A build target: a file path, a directory of further targets, or raw bytes.
pub enum Target {
    File(String),
    Dir(Vec<Target>),
    Raw(Vec<u8>),
}

/// Holds configuration for the image builder.
pub struct Config {
    /// Stage 1 bootloader.
    pub bootloader: Target,
    /// Output image path; only `File` is supported.
    pub output: Target,
    /// Source payload (the kernel); only `File` is supported.
    pub source: Target,
    /// Write a direct-boot link to the kernel into the super block.
    pub directboot: bool,
    /// Block size recorded in the super block.
    pub block_size: u16,
}

/// The name of the source file the direct-boot link points at.
pub open spec fn direct_boot_target() -> Seq<char> {
    "kernel.bin"@
}

/// Does this file name name the direct-boot target?
pub fn is_direct_boot_target(name: &String) -> (r: bool)
    ensures
        r == (name@ == direct_boot_target()),
{
    let target: String = "kernel.bin".to_owned();
    *name == target
}

/// The value of a decimal digit string, most significant digit first.
pub open spec fn digits_val(s: Seq<char>) -> nat
    decreases s.len(),
{
    if s.len() == 0 {
        0
    } else {
        (digits_val(s.drop_last()) * 10 + (s.last() as int - 48)) as nat
    }
}

/// A non-empty string of decimal digits.
pub open spec fn all_digits(s: Seq<char>) -> bool {
    s.len() > 0 && forall|i: int| 0 <= i < s.len() ==> '0' <= #[trigger] s[i] <= '9'
}

/// A longer digit prefix never has a smaller value.
proof fn lemma_digits_val_mono(s: Seq<char>, i: int, j: int)
    requires
        0 <= i <= j <= s.len(),
        forall|k: int| i <= k < j ==> '0' <= #[trigger] s[k] <= '9',
    ensures
        digits_val(s.take(i)) <= digits_val(s.take(j)),
    decreases j - i,
{
    if i < j {
        lemma_digits_val_mono(s, i, j - 1);
        assert(s.take(j).drop_last() =~= s.take(j - 1));
    }
}

/// Parse a non-empty decimal digit string as a `u16`. Anything else — an
/// empty string, a non-digit character, a value over `u16::MAX` — is `None`.
pub fn parse_u16(s: &str) -> (r: Option<u16>)
    ensures
        match r {
            Some(v) => all_digits(s@) && v as nat == digits_val(s@),
            None => !all_digits(s@) || digits_val(s@) > u16::MAX,
        },
{
    let n = s.unicode_len();
    if n == 0 {
        return None;
    }
    let mut val: u32 = 0;
    let mut i: usize = 0;
    while i < n
        invariant
            i <= n,
            n == s@.len(),
            val as nat == digits_val(s@.take(i as int)),
            val <= 0xffff,
            forall|k: int| 0 <= k < i ==> '0' <= #[trigger] s@[k] <= '9',
        decreases n - i,
    {
        let c = s.get_char(i);
        if c < '0' || c > '9' {
            return None;
        }
        let d = (c as u32) - 48;
        let next: u32 = val * 10 + d;
        proof {
            assert(s@.take(i + 1).drop_last() =~= s@.take(i as int));
        }
        if next > 0xffff {
            proof {
                if all_digits(s@) {
                    lemma_digits_val_mono(s@, i + 1, n as int);
                    assert(s@.take(n as int) =~= s@);
                }
            }
            return None;
        }
        val = next;
        i = i + 1;
    }
    proof {
        assert(s@.take(n as int) =~= s@);
    }
    Some(val as u16)
}

/// The configuration fields that argument parsing settles, with paths as
/// character sequences.
pub struct ArgSettings {
    pub bootloader: Seq<char>,
    pub output: Seq<char>,
    pub source: Seq<char>,
    pub directboot: bool,
    pub block_size: u16,
}

/// The defaults argument parsing starts from.
pub open spec fn default_settings() -> ArgSettings {
    ArgSettings {
        bootloader: "build/boot.bin"@,
        output: "build/RezOS.bin"@,
        source: "build/kernel.bin"@,
        directboot: true,
        block_size: DEFAULT_BLOCK_SIZE,
    }
}

/// One parsing step: the previous argument names an option, the current
/// argument is its value (the two boolean flags act when seen as the
/// previous argument).
pub open spec fn argload_step(m: ArgSettings, prev: Seq<char>, cur: Seq<char>) -> ArgSettings {
    if prev == "-b"@ {
        ArgSettings {
            bootloader: cur,
            output: m.output,
            source: m.source,
            directboot: m.directboot,
            block_size: m.block_size,
        }
    } else if prev == "-o"@ {
        ArgSettings {
            bootloader: m.bootloader,
            output: cur,
            source: m.source,
            directboot: m.directboot,
            block_size: m.block_size,
        }
    } else if prev == "-s"@ {
        ArgSettings {
            bootloader: m.bootloader,
            output: m.output,
            source: cur,
            directboot: m.directboot,
            block_size: m.block_size,
        }
    } else if prev == "--directboot"@ {
        ArgSettings {
            bootloader: m.bootloader,
            output: m.output,
            source: m.source,
            directboot: true,
            block_size: m.block_size,
        }
    } else if prev == "--no-directboot"@ {
        ArgSettings {
            bootloader: m.bootloader,
            output: m.output,
            source: m.source,
            directboot: false,
            block_size: m.block_size,
        }
    } else if prev == "--block_size"@ {
        ArgSettings {
            bootloader: m.bootloader,
            output: m.output,
            source: m.source,
            directboot: m.directboot,
            block_size: digits_val(cur) as u16,
        }
    } else {
        m
    }
}

/// The argument before position `i` (an empty string before the first).
pub open spec fn prev_arg(args: Seq<Seq<char>>, i: int) -> Seq<char> {
    if i == 0 {
        Seq::empty()
    } else {
        args[i - 1]
    }
}

/// Folding the parsing step over the arguments from position `i` on.
pub open spec fn argload_rec(args: Seq<Seq<char>>, i: int, m: ArgSettings) -> ArgSettings
    decreases args.len() - i,
{
    if i < 0 || i >= args.len() {
        m
    } else {
        argload_rec(args, i + 1, argload_step(m, prev_arg(args, i), args[i]))
    }
}

impl Config {
    /// The stock configuration.
    pub fn default() -> (cfg: Self)
        ensures
            cfg.bootloader matches Target::File(s) && s@ == "build/boot.bin"@,
            cfg.output matches Target::File(s) && s@ == "build/RezOS.bin"@,
            cfg.source matches Target::File(s) && s@ == "build/kernel.bin"@,
            cfg.directboot == true,
            cfg.block_size == DEFAULT_BLOCK_SIZE,
    {
        Config {
            bootloader: Target::File("build/boot.bin".to_owned()),
            output: Target::File("build/RezOS.bin".to_owned()),
            source: Target::File("build/kernel.bin".to_owned()),
            directboot: true,
            block_size: DEFAULT_BLOCK_SIZE,
        }
    }

    /// Load the configuration from command-line arguments: each `-b`, `-o`,
    /// `-s` takes the following argument as a path, the two `--directboot`
    /// flags switch the direct-boot link, and `--block_size` takes the
    /// following argument as a number. A `--block_size` value that is not a
    /// decimal number up to `u16::MAX` stops the program, so it is excluded
    /// here.
    #[verifier::loop_isolation(false)]
    pub fn argload(args: &Vec<String>) -> (cfg: Self)
        requires
            forall|i: int|
                0 < i < args@.len() && args@[i - 1]@ == "--block_size"@ ==> all_digits(
                    (#[trigger] args@[i])@,
                ) && digits_val(args@[i]@) <= u16::MAX,
        ensures
            ({
                let m = argload_rec(args@.map_values(|s: String| s@), 0, default_settings());
                &&& cfg.bootloader matches Target::File(s) && s@ == m.bootloader
                &&& cfg.output matches Target::File(s) && s@ == m.output
                &&& cfg.source matches Target::File(s) && s@ == m.source
                &&& cfg.directboot == m.directboot
                &&& cfg.block_size == m.block_size
            }),
    {
        let ghost argsv = args@.map_values(|s: String| s@);
        let mut cfg = Config::default();
        let ghost mut m = default_settings();
        let mut i: usize = 0;
        while i < args.len()
            invariant
                i <= args@.len(),
                cfg.bootloader matches Target::File(s) && s@ == m.bootloader,
                cfg.output matches Target::File(s) && s@ == m.output,
                cfg.source matches Target::File(s) && s@ == m.source,
                cfg.directboot == m.directboot,
                cfg.block_size == m.block_size,
                argload_rec(argsv, i as int, m) == argload_rec(argsv, 0, default_settings()),
            decreases args@.len() - i,
        {
            proof {
                reveal_strlit("-b");
                reveal_strlit("-o");
                reveal_strlit("-s");
                reveal_strlit("--directboot");
                reveal_strlit("--no-directboot");
                reveal_strlit("--block_size");
                assert(("-b"@).len() == 2);
                assert(("-o"@).len() == 2);
                assert(("-s"@).len() == 2);
                assert(("--directboot"@).len() == 12);
                assert(("--no-directboot"@).len() == 15);
                assert(("--block_size"@).len() == 12);
                assert(("-b"@)[1] == 'b' && ("-o"@)[1] == 'o' && ("-s"@)[1] == 's');
                assert(("--directboot"@)[2] == 'd' && ("--block_size"@)[2] == 'b');
                assert(argsv[i as int] == args@[i as int]@);
                if i > 0 {
                    assert(argsv[i as int - 1] == args@[i as int - 1]@);
                }
            }
            let arg = &args[i];
            if i > 0 {
                let prev = &args[i - 1];
                if string_is(prev, "-b") {
                    cfg.bootloader = Target::File(arg.clone());
                } else if string_is(prev, "-o") {
                    cfg.output = Target::File(arg.clone());
                } else if string_is(prev, "-s") {
                    cfg.source = Target::File(arg.clone());
                } else if string_is(prev, "--directboot") {
                    cfg.directboot = true;
                } else if string_is(prev, "--no-directboot") {
                    cfg.directboot = false;
                } else if string_is(prev, "--block_size") {
                    match parse_u16(arg.as_str()) {
                        Some(v) => {
                            cfg.block_size = v;
                        },
                        None => {
                            proof {
                                assert(false);
                            }
                        },
                    }
                }
            }
            proof {
                m = argload_step(m, prev_arg(argsv, i as int), argsv[i as int]);
            }
            i = i + 1;
        }
        cfg
    }
}

/// Compare a string against a literal option name.
fn string_is(s: &String, lit: &str) -> (r: bool)
    ensures
        r == (s@ == lit@),
{
    let t: String = lit.to_owned();
    *s == t
}

} // verus!
