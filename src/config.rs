use vstd::prelude::*;
use vstd::string::StringSliceAdditionalSpecFns;
use vstd::utf8::encode_utf8;
use crate::parse::{i32_of, parse_i32, parse_u32, u32_of};
use crate::text::{bytes_equal, lemma_boundary_after_ascii, text_equal};

verus! {

/// The options of a run and the puzzle files to solve.
pub struct Config {
    pub variant: String,
    pub heuristic_name: String,
    pub solution_type: String,
    pub mode: String,
    pub files: Vec<String>,
    pub solvable: bool,
    pub amount: u32,
    pub size: i32,
}

/// Why the arguments or the options were refused; the index is that of the argument.
#[derive(PartialEq, Eq, Debug)]
pub enum ConfigError {
    /// An option without `=`.
    Malformed(usize),
    /// A `--amount` whose value is no `u32`.
    InvalidAmount(usize),
    /// A `--size` whose value is no `i32`.
    InvalidSize(usize),
    /// A `--size` below 3.
    SizeTooSmall(usize),
    /// A variant other than `ida*` and `a*`.
    UnknownVariant,
    /// A goal layout other than `snail`, `first` and `last`.
    UnknownSolutionType,
    /// A mode other than `normal`, `greedy` and `uniform`.
    UnknownMode,
}

/// The options and files as bytes.
pub ghost struct Settings {
    pub variant: Seq<u8>,
    pub heuristic_name: Seq<u8>,
    pub solution_type: Seq<u8>,
    pub mode: Seq<u8>,
    pub files: Seq<Seq<u8>>,
    pub solvable: bool,
    pub amount: u32,
    pub size: i32,
}

/// The settings of a run without options: IDA*, linear conflicts, the snail goal, normal
/// mode, one solvable puzzle of side 3.
pub open spec fn default_settings() -> Settings {
    Settings {
        variant: "ida*".spec_bytes(),
        heuristic_name: "linear-conflicts".spec_bytes(),
        solution_type: "snail".spec_bytes(),
        mode: "normal".spec_bytes(),
        files: Seq::empty(),
        solvable: true,
        amount: 1,
        size: 3,
    }
}

/// `i` is the first index of `b` that holds an `=`.
pub open spec fn is_first_equals(b: Seq<u8>, i: int) -> bool {
    &&& 0 <= i < b.len()
    &&& b[i] == 61
    &&& forall|j: int| 0 <= j < i ==> b[j] != 61
}

/// The name and the value of an option `name=value`, split at the first `=`.
pub open spec fn split_option(b: Seq<u8>) -> Option<(Seq<u8>, Seq<u8>)> {
    if exists|i: int| is_first_equals(b, i) {
        let i = choose|i: int| is_first_equals(b, i);
        Some((b.subrange(0, i), b.subrange(i + 1, b.len() as int)))
    } else {
        None
    }
}

/// What argument number `index`, `arg`, does to the settings `c`; `files_started` tells
/// whether a puzzle file was met already, after which every argument is a file.
pub open spec fn read_arg(c: Settings, files_started: bool, arg: Seq<u8>, index: int) -> Result<
    (Settings, bool),
    ConfigError,
> {
    if !files_started && arg.len() >= 2 && arg[0] == 45 && arg[1] == 45 {
        match split_option(arg) {
            None => Err(ConfigError::Malformed(index as usize)),
            Some((name, value)) => if name == "--variant".spec_bytes() {
                Ok((Settings { variant: value, ..c }, false))
            } else if name == "--heuristic".spec_bytes() {
                Ok((Settings { heuristic_name: value, ..c }, false))
            } else if name == "--solution-type".spec_bytes() {
                Ok((Settings { solution_type: value, ..c }, false))
            } else if name == "--mode".spec_bytes() {
                Ok((Settings { mode: value, ..c }, false))
            } else if name == "--unsolvable".spec_bytes() {
                Ok((Settings { solvable: false, ..c }, false))
            } else if name == "--amount".spec_bytes() {
                match u32_of(value) {
                    None => Err(ConfigError::InvalidAmount(index as usize)),
                    Some(a) => Ok((Settings { amount: a, ..c }, false)),
                }
            } else if name == "--size".spec_bytes() {
                match i32_of(value) {
                    None => Err(ConfigError::InvalidSize(index as usize)),
                    Some(z) => if z < 3 {
                        Err(ConfigError::SizeTooSmall(index as usize))
                    } else {
                        Ok((Settings { size: z, ..c }, false))
                    },
                }
            } else {
                Ok((c, false))
            },
        }
    } else {
        Ok((Settings { files: c.files.push(arg), ..c }, true))
    }
}

/// The settings that the arguments `args` give, read from the first on.
pub open spec fn read_args(args: Seq<Seq<u8>>) -> Result<(Settings, bool), ConfigError>
    decreases args.len(),
{
    if args.len() == 0 {
        Ok((default_settings(), false))
    } else {
        match read_args(args.drop_last()) {
            Err(e) => Err(e),
            Ok((c, started)) => read_arg(c, started, args.last(), args.len() - 1),
        }
    }
}

pub open spec fn string_bytes(s: Seq<String>) -> Seq<Seq<u8>> {
    s.map_values(|a: String| encode_utf8(a@))
}

/// Whether `s` is one of the words `a`, `b`, `c`.
pub open spec fn one_of(s: Seq<char>, a: Seq<char>, b: Seq<char>, c: Seq<char>) -> bool {
    s == a || s == b || s == c
}

impl Config {
    /// The options and files as bytes.
    pub open spec fn settings(&self) -> Settings {
        Settings {
            variant: encode_utf8(self.variant@),
            heuristic_name: encode_utf8(self.heuristic_name@),
            solution_type: encode_utf8(self.solution_type@),
            mode: encode_utf8(self.mode@),
            files: string_bytes(self.files@),
            solvable: self.solvable,
            amount: self.amount,
            size: self.size,
        }
    }

    /// Reads the arguments of a run: options `--name=value` up to the first argument that
    /// is not one, which with all after it names a puzzle file. Options of other names are
    /// passed over.
    pub fn new(args: &Vec<String>) -> (r: Result<Config, ConfigError>)
        ensures
            match read_args(string_bytes(args@)) {
                Err(e) => r == Err::<Config, ConfigError>(e),
                Ok((c, _)) => r matches Ok(cfg) && cfg.settings() == c,
            },
    {
        let ghost all = string_bytes(args@);
        let mut config = Config {
            variant: "ida*".to_owned(),
            heuristic_name: "linear-conflicts".to_owned(),
            solution_type: "snail".to_owned(),
            mode: "normal".to_owned(),
            files: Vec::new(),
            solvable: true,
            amount: 1,
            size: 3,
        };
        proof {
            assert(string_bytes(config.files@) =~= Seq::<Seq<u8>>::empty());
            assert(config.settings() == default_settings());
        }
        let mut found_first_puzzle = false;
        let mut k: usize = 0;
        while k < args.len()
            invariant
                k <= args@.len(),
                all == string_bytes(args@),
                read_args(all.subrange(0, k as int)) == Ok::<(Settings, bool), ConfigError>(
                    (config.settings(), found_first_puzzle),
                ),
            decreases args@.len() - k,
        {
            proof {
                assert(all.subrange(0, k + 1).drop_last() =~= all.subrange(0, k as int));
                assert(all.subrange(0, k + 1).last() == encode_utf8(args@[k as int]@));
            }
            let arg: &str = args[k].as_str();
            let b = arg.as_bytes();
            let ghost c = config.settings();
            if !found_first_puzzle && b.len() >= 2 && b[0] == 45 && b[1] == 45 {
                let mut i: usize = 0;
                while i < b.len() && b[i] != 61
                    invariant
                        i <= b@.len(),
                        forall|j: int| 0 <= j < i ==> b@[j] != 61,
                    decreases b@.len() - i,
                {
                    i += 1;
                }
                if i == b.len() {
                    proof {
                        assert(!exists|j: int| is_first_equals(b@, j));
                        lemma_read_args_error(all, k as int + 1, ConfigError::Malformed(k));
                    }
                    return Err(ConfigError::Malformed(k));
                }
                proof {
                    assert(is_first_equals(b@, i as int));
                    let j = choose|j: int| is_first_equals(b@, j);
                    assert(j == i) by {
                        if j < i {
                            assert(b@[j] != 61);
                        }
                        if j > i {
                            assert(b@[i as int] != 61);
                        }
                    }
                    vstd::utf8::encode_utf8_valid_utf8(arg@);
                    vstd::utf8::is_char_boundary_iff_not_is_continuation_byte(b@, i as int);
                    if i + 1 < b@.len() {
                        lemma_boundary_after_ascii(b@, i as int);
                    } else {
                        vstd::utf8::is_char_boundary_start_end_of_seq(b@);
                    }
                }
                let name = &b[0..i];
                let (_, value) = arg.split_at(i + 1);
                let ghost vb = b@.subrange(i + 1, b@.len() as int);
                proof {
                    assert(value.spec_bytes() =~= vb);
                }
                if bytes_equal(name, "--variant".as_bytes()) {
                    config.variant = value.to_owned();
                } else if bytes_equal(name, "--heuristic".as_bytes()) {
                    config.heuristic_name = value.to_owned();
                } else if bytes_equal(name, "--solution-type".as_bytes()) {
                    config.solution_type = value.to_owned();
                } else if bytes_equal(name, "--mode".as_bytes()) {
                    config.mode = value.to_owned();
                } else if bytes_equal(name, "--unsolvable".as_bytes()) {
                    config.solvable = false;
                } else if bytes_equal(name, "--amount".as_bytes()) {
                    match parse_u32(value.as_bytes()) {
                        Some(a) => {
                            config.amount = a;
                        },
                        None => {
                            proof {
                                lemma_read_args_error(
                                    all,
                                    k as int + 1,
                                    ConfigError::InvalidAmount(k),
                                );
                            }
                            return Err(ConfigError::InvalidAmount(k));
                        },
                    }
                } else if bytes_equal(name, "--size".as_bytes()) {
                    match parse_i32(value.as_bytes()) {
                        Some(z) => {
                            if z < 3 {
                                proof {
                                    lemma_read_args_error(
                                        all,
                                        k as int + 1,
                                        ConfigError::SizeTooSmall(k),
                                    );
                                }
                                return Err(ConfigError::SizeTooSmall(k));
                            }
                            config.size = z;
                        },
                        None => {
                            proof {
                                lemma_read_args_error(
                                    all,
                                    k as int + 1,
                                    ConfigError::InvalidSize(k),
                                );
                            }
                            return Err(ConfigError::InvalidSize(k));
                        },
                    }
                }
                proof {
                    assert(config.settings().files == c.files);
                }
            } else {
                found_first_puzzle = true;
                let ghost before = config.files@;
                config.files.push(args[k].clone());
                proof {
                    assert(string_bytes(config.files@) =~= string_bytes(before).push(
                        encode_utf8(args@[k as int]@),
                    ));
                }
            }
            k += 1;
        }
        proof {
            assert(all.subrange(0, all.len() as int) =~= all);
        }
        Ok(config)
    }

    /// Whether the variant, the goal layout and the mode are among the known ones; the
    /// first that is not gives the error.
    pub fn check(&self) -> (r: Result<(), ConfigError>)
        ensures
            !one_of(self.variant@, "ida*"@, "a*"@, "a*"@) ==> r == Err::<(), ConfigError>(
                ConfigError::UnknownVariant,
            ),
            one_of(self.variant@, "ida*"@, "a*"@, "a*"@) && !one_of(
                self.solution_type@,
                "snail"@,
                "first"@,
                "last"@,
            ) ==> r == Err::<(), ConfigError>(ConfigError::UnknownSolutionType),
            one_of(self.variant@, "ida*"@, "a*"@, "a*"@) && one_of(
                self.solution_type@,
                "snail"@,
                "first"@,
                "last"@,
            ) && !one_of(self.mode@, "normal"@, "greedy"@, "uniform"@) ==> r == Err::<
                (),
                ConfigError,
            >(ConfigError::UnknownMode),
            r is Ok <==> one_of(self.variant@, "ida*"@, "a*"@, "a*"@) && one_of(
                self.solution_type@,
                "snail"@,
                "first"@,
                "last"@,
            ) && one_of(self.mode@, "normal"@, "greedy"@, "uniform"@),
    {
        let variant = self.variant.as_str();
        if !(text_equal(variant, "ida*") || text_equal(variant, "a*")) {
            return Err(ConfigError::UnknownVariant);
        }
        let layout = self.solution_type.as_str();
        if !(text_equal(layout, "snail") || text_equal(layout, "first") || text_equal(
            layout,
            "last",
        )) {
            return Err(ConfigError::UnknownSolutionType);
        }
        let mode = self.mode.as_str();
        if !(text_equal(mode, "normal") || text_equal(mode, "greedy") || text_equal(
            mode,
            "uniform",
        )) {
            return Err(ConfigError::UnknownMode);
        }
        Ok(())
    }
}

/// Once an argument is refused, so are the arguments as a whole.
proof fn lemma_read_args_error(all: Seq<Seq<u8>>, k: int, e: ConfigError)
    requires
        0 < k <= all.len(),
        read_args(all.subrange(0, k)) == Err::<(Settings, bool), ConfigError>(e),
    ensures
        read_args(all) == Err::<(Settings, bool), ConfigError>(e),
    decreases all.len() - k,
{
    if k < all.len() {
        assert(all.subrange(0, k + 1).drop_last() =~= all.subrange(0, k));
        lemma_read_args_error(all, k + 1, e);
    } else {
        assert(all.subrange(0, k) =~= all);
    }
}

} // verus!
