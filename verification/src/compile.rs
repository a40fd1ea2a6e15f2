use crate::strings::{
    chars_of, cut, ends_with, find_mark, first_mark, has_prefix, has_suffix, lemma_first_mark,
    starts_with, trim_span, trimmed,
};
use vstd::prelude::*;
use vstd::string::StringExecFns;

verus! {

/// What the compilation of the benchmark's contracts is given.
#[derive(Clone, Debug, PartialEq, Eq)]
pub struct CompileArgs {
    /// The list of contracts: a file name, a main contract and, if given, a
    /// compiler version on each line.
    pub list_file: String,
    /// The directory that holds the sources.
    pub solc_input_dir: String,
    /// The directory under which each contract gets a directory of its own.
    pub solc_output_dir: String,
    /// How long the compiler may run on one contract, in seconds.
    pub solc_timeout_seconds: u64,
    /// The compiler to run, where it is not the one on the search path.
    pub solc_binary: Option<String>,
    /// Whether kernels are generated for the compiled contracts.
    pub generate_ptx: bool,
}

/// What the generation of kernels for compiled contracts is given.
#[derive(Clone, Debug, PartialEq, Eq)]
pub struct PTXArgs {
    /// The directory under which each compiled contract has its directory.
    pub solc_output_dir: String,
}

/// The compiler that is run for a contract: the one named in the arguments;
/// else, for a contract that asks for a version, that version under the
/// home directory; else the one on the search path.
pub open spec fn solc_binary_spec(
    configured: Option<Seq<char>>,
    version: Option<Seq<char>>,
    home: Seq<char>,
) -> Seq<char> {
    match configured {
        Some(binary) => binary,
        None => match version {
            Some(v) => home + "/.solc-select/artifacts/solc-"@ + v + "/solc-"@ + v,
            None => "solc"@,
        },
    }
}

/// Picks the compiler for a contract that asks for `version`, if for any.
pub fn solc_binary(args: &CompileArgs, version: Option<&str>, home: &str) -> (r: String)
    ensures
        r@ == solc_binary_spec(
            match args.solc_binary {
                Some(binary) => Some(binary@),
                None => None,
            },
            match version {
                Some(v) => Some(v@),
                None => None,
            },
            home@,
        ),
{
    match &args.solc_binary {
        Some(binary) => binary.clone(),
        None => match version {
            Some(v) => String::from_str(home).concat("/.solc-select/artifacts/solc-").concat(
                v,
            ).concat("/solc-").concat(v),
            None => String::from_str("solc"),
        },
    }
}

/// A file of a contract's output directory stays if it belongs to the main
/// contract, its name starting with the contract's name and a dot, or if it
/// is a generated kernel.
pub open spec fn keeps_output_spec(file_name: Seq<char>, main_contract: Seq<char>) -> bool {
    has_prefix(file_name, main_contract + "."@) || has_suffix(file_name, ".ptx"@)
}

/// Tells whether a file of a contract's output directory stays after the
/// compilation.
pub fn keeps_output(file_name: &str, main_contract: &str) -> (r: bool)
    ensures
        r == keeps_output_spec(file_name@, main_contract@),
{
    let own = String::from_str(main_contract).concat(".");
    starts_with(file_name, own.as_str()) || ends_with(file_name, ".ptx")
}

/// The pattern that selects the binaries of all compiled contracts.
pub fn binaries_pattern(args: &PTXArgs) -> (r: String)
    ensures
        r@ == args.solc_output_dir@ + "/*/*.bin"@,
{
    args.solc_output_dir.clone().concat("/*/*.bin")
}

/// One contract of the list: the name of its source file without the
/// ending, its main contract and, if the line gives one, its compiler's version.
#[derive(Clone, Debug, PartialEq, Eq)]
pub struct ListEntry {
    pub sol_filename_base: String,
    pub main_contract_name: String,
    pub compiler_version: Option<String>,
}

/// What a line of the list holds.
#[derive(Clone, Debug, PartialEq, Eq)]
pub enum ListLine {
    /// Nothing, or a comment: the line is passed over in silence.
    Skipped,
    /// Less than a file name and a main contract: the line is passed over
    /// with a warning.
    Malformed,
    /// A contract to compile.
    Entry(ListEntry),
}

/// What a line of the list holds, as mathematics sees it.
pub enum ListLineSpec {
    Skipped,
    Malformed,
    Entry { base: Seq<char>, main: Seq<char>, version: Option<Seq<char>> },
}

/// The part of `s` before its first comma, without the white space around it.
pub open spec fn head_field(s: Seq<char>) -> Seq<char> {
    trimmed(s.subrange(0, first_mark(s, ',') as int))
}

/// The part of `s` behind its first comma, if it has one.
pub open spec fn tail_fields(s: Seq<char>) -> Option<Seq<char>> {
    if first_mark(s, ',') < s.len() {
        Some(s.subrange(first_mark(s, ',') as int + 1, s.len() as int))
    } else {
        None
    }
}

/// Reads a line of the list. Of an empty line and of one that starts with
/// `#` nothing is read. Any other line is parted at its commas: the first
/// two parts name the file and the main contract and must not be empty; a
/// third names the compiler's version; what follows counts for nothing.
/// White space around the line and around each part is left out.
pub open spec fn list_line_spec(line: Seq<char>) -> ListLineSpec {
    let t = trimmed(line);
    if t.len() == 0 || t[0] == '#' {
        ListLineSpec::Skipped
    } else {
        match tail_fields(t) {
            None => ListLineSpec::Malformed,
            Some(rest) => if head_field(t).len() == 0 || head_field(rest).len() == 0 {
                ListLineSpec::Malformed
            } else {
                ListLineSpec::Entry {
                    base: head_field(t),
                    main: head_field(rest),
                    version: match tail_fields(rest) {
                        None => None,
                        Some(last) => Some(head_field(last)),
                    },
                }
            },
        }
    }
}

/// `r` is what `spec` says, text for text.
pub open spec fn list_line_matches(r: ListLine, spec: ListLineSpec) -> bool {
    match spec {
        ListLineSpec::Skipped => r is Skipped,
        ListLineSpec::Malformed => r is Malformed,
        ListLineSpec::Entry { base, main, version } => {
            &&& r is Entry
            &&& r->Entry_0.sol_filename_base@ == base
            &&& r->Entry_0.main_contract_name@ == main
            &&& match version {
                None => r->Entry_0.compiler_version is None,
                Some(v) => r->Entry_0.compiler_version is Some && r->Entry_0.compiler_version->0@
                    == v,
            }
        },
    }
}

/// Reads a line of the list of contracts.
pub fn parse_list_line(line: &str) -> (r: ListLine)
    ensures
        list_line_matches(r, list_line_spec(line@)),
{
    let v = chars_of(line);
    let (a, b) = trim_span(&v, 0, v.len());
    proof {
        assert(v@.subrange(0, v@.len() as int) =~= v@);
    }
    let ghost t = v@.subrange(a as int, b as int);
    if a == b || v[a] == '#' {
        proof {
            if a < b {
                assert(t[0] == v@[a as int]);
            }
        }
        return ListLine::Skipped;
    }
    proof {
        assert(t[0] == v@[a as int]);
        lemma_first_mark(t, ',');
    }
    // The file name, up to the first comma.
    let c0: usize = find_mark(&v, a, b, ',');
    let (a0, b0) = trim_span(&v, a, c0);
    proof {
        assert(t.subrange(0, first_mark(t, ',') as int) =~= v@.subrange(a as int, c0 as int));
    }
    if c0 == b {
        return ListLine::Malformed;
    }
    // The main contract, up to the second comma.
    let ghost rest = v@.subrange(c0 + 1, b as int);
    proof {
        assert(t.subrange(first_mark(t, ',') as int + 1, t.len() as int) =~= rest);
        lemma_first_mark(rest, ',');
    }
    let c1: usize = find_mark(&v, c0 + 1, b, ',');
    let (a1, b1) = trim_span(&v, c0 + 1, c1);
    proof {
        assert(rest.subrange(0, first_mark(rest, ',') as int) =~= v@.subrange(
            c0 + 1,
            c1 as int,
        ));
    }
    if a0 == b0 || a1 == b1 {
        return ListLine::Malformed;
    }
    // The version, if a second comma opens a third part.
    let compiler_version = if c1 < b {
        let ghost last = v@.subrange(c1 + 1, b as int);
        proof {
            assert(rest.subrange(first_mark(rest, ',') as int + 1, rest.len() as int) =~= last);
            lemma_first_mark(last, ',');
        }
        let c2: usize = find_mark(&v, c1 + 1, b, ',');
        let (a2, b2) = trim_span(&v, c1 + 1, c2);
        proof {
            assert(last.subrange(0, first_mark(last, ',') as int) =~= v@.subrange(
                c1 + 1,
                c2 as int,
            ));
        }
        Some(cut(line, a2, b2))
    } else {
        None
    };
    ListLine::Entry(
        ListEntry {
            sol_filename_base: cut(line, a0, b0),
            main_contract_name: cut(line, a1, b1),
            compiler_version,
        },
    )
}

} // verus!
