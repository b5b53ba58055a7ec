//! Run configuration: the raw arguments, their validation into print options,
//! and the error values shared by the whole library.
use vstd::prelude::*;
use regex::Regex;
use crate::text::{ascii_lower, chars_of, string_of, to_ascii_lowercase};

verus! {

#[verifier::external_type_specification]
#[verifier::external_body]
pub struct ExRegex(Regex);

#[verifier::external_type_specification]
#[verifier::external_body]
pub struct ExRegexError(regex::Error);

/// Whether `regex::Regex::new` accepts this pattern.
pub uninterp spec fn regex_compiles(pattern: Seq<char>) -> bool;

/// Whether the compiled expression matches somewhere in the haystack.
pub uninterp spec fn regex_finds(re: Regex, haystack: Seq<char>) -> bool;

/// Whether the expression compiled from `pattern` matches somewhere in the
/// haystack.
pub uninterp spec fn pattern_finds(pattern: Seq<char>, haystack: Seq<char>) -> bool;

/// Relies on `regex::Regex::new`: compiles a pattern, failing exactly on the
/// patterns it rejects; what the compiled expression matches depends on the
/// pattern alone.
#[verifier::external_body]
fn compile_regex(pattern: &str) -> (r: Result<Regex, regex::Error>)
    ensures
        r is Ok <==> regex_compiles(pattern@),
        r matches Ok(re) ==> forall|h: Seq<char>| #[trigger] regex_finds(re, h) == pattern_finds(pattern@, h),
{
    Regex::new(pattern)
}

/// Relies on `regex::Regex::is_match`: whether the expression matches
/// anywhere in `haystack`.
#[verifier::external_body]
pub(crate) fn regex_is_match(re: &Regex, haystack: &str) -> (r: bool)
    ensures
        r == regex_finds(*re, haystack@),
{
    re.is_match(haystack)
}

/// Relies on `Display for regex::Error`: the error's message.
#[verifier::external_body]
fn regex_error_text(e: &regex::Error) -> (r: String) {
    e.to_string()
}

/// The key that entries of one directory are ordered by.
#[derive(Debug, Clone, Copy, PartialEq, Eq, Structural)]
pub enum SortBy {
    Alphabetical,
    FileSize,
    LastUpdatedTimestamp,
}

/// The command-line arguments as given, before validation.
#[derive(Debug)]
pub struct Args {
    pub path: String,
    pub sort_by: Option<String>,
    pub extension_filters: Option<Vec<String>>,
    pub show_hidden: bool,
    pub regex: Option<String>,
    pub long_format: bool,
    pub write_json: Option<String>,
}

#[derive(Debug)]
pub struct ArgParseError {
    pub details: ArgParseErrorType,
}

#[derive(Debug)]
pub enum ArgParseErrorType {
    SortFlag(String),
    BadExtension(String),
    BadRegex(String),
}

#[derive(Debug)]
pub struct TreeParseError {
    pub details: TreeParseType,
}

#[derive(Debug)]
pub enum TreeParseType {
    Io(String),
    InvalidInput(String),
}

#[derive(Debug)]
pub enum ParseError {
    Args(ArgParseError),
    Tree(TreeParseError),
}

/// Validated options that drive filtering, ordering and rendering.
#[derive(Debug)]
pub struct PrintOptions {
    pub sort_by: SortBy,
    /// Allowed extensions, lower-case, without a leading dot, each once.
    pub extension_filters: Option<Vec<String>>,
    pub show_hidden: bool,
    pub regex_filter: Option<Regex>,
    pub long_format: bool,
    pub write_json: Option<String>,
}

impl ArgParseErrorType {
    pub open spec fn message_view(&self) -> Seq<char> {
        match self {
            ArgParseErrorType::SortFlag(flag) => "invalid sort flag \""@ + flag@
                + "\" (expected \"fs\" or \"ts\")"@,
            ArgParseErrorType::BadExtension(ext) => "invalid extension \""@ + ext@ + "\""@,
            ArgParseErrorType::BadRegex(msg) => "invalid regex -> "@ + msg@,
        }
    }

    /// The message shown for this error.
    pub fn message(&self) -> (r: String)
        ensures
            r@ == self.message_view(),
    {
        match self {
            ArgParseErrorType::SortFlag(flag) => String::from_str("invalid sort flag \"").concat(
                flag.as_str(),
            ).concat("\" (expected \"fs\" or \"ts\")"),
            ArgParseErrorType::BadExtension(ext) => String::from_str("invalid extension \"").concat(
                ext.as_str(),
            ).concat("\""),
            ArgParseErrorType::BadRegex(msg) => String::from_str("invalid regex -> ").concat(
                msg.as_str(),
            ),
        }
    }
}

impl ArgParseError {
    /// The message shown for this error.
    pub fn message(&self) -> (r: String)
        ensures
            r@ == "argument error -> "@ + self.details.message_view(),
    {
        String::from_str("argument error -> ").concat(self.details.message().as_str())
    }
}

impl TreeParseType {
    pub open spec fn message_view(&self) -> Seq<char> {
        match self {
            TreeParseType::Io(msg) => "IO error -> "@ + msg@,
            TreeParseType::InvalidInput(msg) => msg@,
        }
    }

    /// The message shown for this error.
    pub fn message(&self) -> (r: String)
        ensures
            r@ == self.message_view(),
    {
        match self {
            TreeParseType::Io(msg) => String::from_str("IO error -> ").concat(msg.as_str()),
            TreeParseType::InvalidInput(msg) => msg.clone(),
        }
    }
}

impl TreeParseError {
    /// The message shown for this error.
    pub fn message(&self) -> (r: String)
        ensures
            r@ == self.details.message_view(),
    {
        self.details.message()
    }
}

impl From<ArgParseError> for ParseError {
    fn from(e: ArgParseError) -> (r: ParseError)
        ensures
            r == ParseError::Args(e),
    {
        ParseError::Args(e)
    }
}

impl vstd::std_specs::convert::FromSpecImpl<ArgParseError> for ParseError {
    open spec fn obeys_from_spec() -> bool {
        true
    }

    open spec fn from_spec(e: ArgParseError) -> ParseError {
        ParseError::Args(e)
    }
}

impl From<TreeParseError> for ParseError {
    fn from(e: TreeParseError) -> (r: ParseError)
        ensures
            r == ParseError::Tree(e),
    {
        ParseError::Tree(e)
    }
}

impl vstd::std_specs::convert::FromSpecImpl<TreeParseError> for ParseError {
    open spec fn obeys_from_spec() -> bool {
        true
    }

    open spec fn from_spec(e: TreeParseError) -> ParseError {
        ParseError::Tree(e)
    }
}

/// The views of a sequence of strings.
pub open spec fn views(v: Seq<String>) -> Seq<Seq<char>> {
    v.map_values(|s: String| s@)
}

/// `s` without its leading dots.
pub open spec fn trim_dots(s: Seq<char>) -> Seq<char>
    decreases s.len(),
{
    if s.len() > 0 && s[0] == '.' {
        trim_dots(s.drop_first())
    } else {
        s
    }
}

/// An extension as the filter stores it: no leading dot, ASCII lower case.
pub open spec fn normalize_ext(s: Seq<char>) -> Seq<char> {
    ascii_lower(trim_dots(s))
}

pub open spec fn sort_flag_valid(flag: Option<String>) -> bool {
    flag matches Some(f) ==> (f@ == "fs"@ || f@ == "ts"@)
}

pub open spec fn sort_key_of(flag: Option<String>) -> SortBy {
    match flag {
        Some(f) => if f@ == "fs"@ { SortBy::FileSize } else { SortBy::LastUpdatedTimestamp },
        None => SortBy::Alphabetical,
    }
}

/// No two strings of the sequence are equal.
pub open spec fn strings_unique(v: Seq<String>) -> bool {
    forall|a: int, b: int| 0 <= a < b < v.len() ==> (#[trigger] v[a])@ != (#[trigger] v[b])@
}

/// Whether some string of the sequence reads `x`.
pub open spec fn in_views(v: Seq<String>, x: Seq<char>) -> bool {
    exists|k: int| 0 <= k < v.len() && #[trigger] v[k]@ == x
}

/// Whether one of the first `n` raw extensions normalises to `x`.
pub open spec fn normalized_in(list: Seq<String>, n: int, x: Seq<char>) -> bool {
    exists|j: int| 0 <= j < n && normalize_ext(#[trigger] list[j]@) == x
}

/// Whether `v` holds a string equal to `s`.
fn contains_string(v: &Vec<String>, s: &String) -> (r: bool)
    ensures
        r == in_views(v@, s@),
{
    for i in 0..v.len()
        invariant
            forall|j: int| 0 <= j < i ==> v@[j]@ != s@,
    {
        if v[i] == *s {
            assert(v@[i as int]@ == s@);
            return true;
        }
    }
    false
}

/// Whether the raw extension is nothing but dots.
pub open spec fn ext_is_bad(raw: Seq<char>) -> bool {
    trim_dots(raw).len() == 0
}

/// Whether some entry of the list is a bad extension.
pub open spec fn has_bad_ext(list: Seq<String>) -> bool {
    exists|i: int| 0 <= i < list.len() && ext_is_bad(#[trigger] list[i]@)
}

/// Whether `i` is the first bad entry of the list.
pub open spec fn first_bad_ext(list: Seq<String>, i: int) -> bool {
    &&& 0 <= i < list.len()
    &&& ext_is_bad(list[i]@)
    &&& forall|j: int| 0 <= j < i ==> !ext_is_bad(#[trigger] list[j]@)
}

/// Whether the arguments pass validation.
pub open spec fn args_valid(args: Args) -> bool {
    &&& sort_flag_valid(args.sort_by)
    &&& args.extension_filters matches Some(list) ==> !has_bad_ext(list@)
    &&& args.regex matches Some(p) ==> regex_compiles(p@)
}

proof fn lemma_trim_dots_suffix(s: Seq<char>, k: int)
    requires
        0 <= k <= s.len(),
        forall|j: int| 0 <= j < k ==> s[j] == '.',
    ensures
        trim_dots(s) == trim_dots(s.subrange(k, s.len() as int)),
    decreases k,
{
    if k > 0 {
        assert(s.drop_first().subrange(k - 1, s.drop_first().len() as int) =~= s.subrange(k, s.len() as int));
        lemma_trim_dots_suffix(s.drop_first(), k - 1);
    } else {
        assert(s.subrange(0, s.len() as int) =~= s);
    }
}

/// `s` without its leading dots.
fn trim_leading_dots(s: &str) -> (r: Vec<char>)
    ensures
        r@ == trim_dots(s@),
{
    let cs = chars_of(s);
    let mut k: usize = 0;
    while k < cs.len() && cs[k] == '.'
        invariant
            k <= cs@.len(),
            cs@ == s@,
            forall|j: int| 0 <= j < k ==> cs@[j] == '.',
        decreases cs.len() - k,
    {
        k = k + 1;
    }
    proof {
        lemma_trim_dots_suffix(cs@, k as int);
    }
    let mut out: Vec<char> = Vec::new();
    let mut i: usize = k;
    while i < cs.len()
        invariant
            k <= i <= cs@.len(),
            out@ == cs@.subrange(k as int, i as int),
        decreases cs.len() - i,
    {
        out.push(cs[i]);
        assert(cs@.subrange(k as int, i + 1) =~= cs@.subrange(k as int, i as int).push(cs@[i as int]));
        i = i + 1;
    }
    proof {
        let rest = cs@.subrange(k as int, cs@.len() as int);
        if rest.len() > 0 {
            assert(rest[0] == cs@[k as int]);
        }
    }
    out
}

/// Whether `s` is exactly the two characters `a`, `b`.
fn is_two_chars(s: &str, a: char, b: char) -> (r: bool)
    ensures
        r == (s@ == seq![a, b]),
{
    let cs = chars_of(s);
    let r = cs.len() == 2 && cs[0] == a && cs[1] == b;
    if r {
        assert(cs@ =~= seq![a, b]);
    }
    r
}

/// Validates the arguments: the sort flag, then each extension, then the
/// regex, reporting the first problem found.
pub fn create_print_options_from_args(args: Args) -> (r: Result<PrintOptions, ParseError>)
    ensures
        !sort_flag_valid(args.sort_by) ==> (r matches Err(ParseError::Args(ArgParseError {
            details: ArgParseErrorType::SortFlag(f),
        })) && f@ == args.sort_by->0@),
        sort_flag_valid(args.sort_by) && (args.extension_filters matches Some(list) && has_bad_ext(
            list@,
        )) ==> (r matches Err(ParseError::Args(ArgParseError {
            details: ArgParseErrorType::BadExtension(raw),
        })) && exists|i: int| first_bad_ext(args.extension_filters->0@, i) && args.extension_filters->0@[i] == raw),
        sort_flag_valid(args.sort_by) && (args.extension_filters matches Some(list) ==> !has_bad_ext(
            list@,
        )) && (args.regex matches Some(p) && !regex_compiles(p@)) ==> (r matches Err(
            ParseError::Args(ArgParseError { details: ArgParseErrorType::BadRegex(msg) }),
        ) && ("invalid regex \""@ + args.regex->0@ + "\": "@).is_prefix_of(msg@)),
        args_valid(args) <==> r is Ok,
        r matches Ok(o) ==> {
            &&& o.sort_by == sort_key_of(args.sort_by)
            &&& o.show_hidden == args.show_hidden
            &&& o.long_format == args.long_format
            &&& o.write_json == args.write_json
            &&& o.regex_filter is Some <==> args.regex is Some
            &&& o.regex_filter matches Some(re) ==> forall|h: Seq<char>|
                #[trigger] regex_finds(re, h) == pattern_finds(args.regex->0@, h)
            &&& o.extension_filters is Some <==> args.extension_filters is Some
            &&& o.extension_filters matches Some(exts) ==> {
                &&& strings_unique(exts@)
                &&& forall|x: Seq<char>| #[trigger] in_views(exts@, x) <==> normalized_in(
                    args.extension_filters->0@,
                    args.extension_filters->0@.len() as int,
                    x,
                )
            }
        },
{
    proof {
        reveal_strlit("fs");
        reveal_strlit("ts");
        assert("fs"@ =~= seq!['f', 's']);
        assert("ts"@ =~= seq!['t', 's']);
    }
    let sort_by = match &args.sort_by {
        Some(flag) => {
            if is_two_chars(flag.as_str(), 'f', 's') {
                SortBy::FileSize
            } else if is_two_chars(flag.as_str(), 't', 's') {
                SortBy::LastUpdatedTimestamp
            } else {
                return Err(
                    ParseError::Args(
                        ArgParseError { details: ArgParseErrorType::SortFlag(flag.clone()) },
                    ),
                );
            }
        },
        None => SortBy::Alphabetical,
    };

    let extension_filters = match &args.extension_filters {
        Some(list) => {
            let mut set: Vec<String> = Vec::new();
            for i in 0..list.len()
                invariant
                    strings_unique(set@),
                    forall|x: Seq<char>| #[trigger] in_views(set@, x) <==> normalized_in(list@, i as int, x),
                    forall|j: int| 0 <= j < i ==> !ext_is_bad(#[trigger] list@[j]@),
                    sort_flag_valid(args.sort_by),
                    args.extension_filters == Some(*list),
            {
                let raw = &list[i];
                let ext = trim_leading_dots(raw.as_str());
                if ext.len() == 0 {
                    assert(first_bad_ext(list@, i as int));
                    return Err(
                        ParseError::Args(
                            ArgParseError { details: ArgParseErrorType::BadExtension(raw.clone()) },
                        ),
                    );
                }
                let lowered = to_ascii_lowercase(string_of(ext.as_slice()).as_str());
                assert(lowered@ == normalize_ext(list@[i as int]@));
                let ghost before = set@;
                if !contains_string(&set, &lowered) {
                    set.push(lowered);
                    assert(set@[before.len() as int] == lowered);
                    assert forall|a: int, b: int| 0 <= a < b < set@.len() implies (#[trigger] set@[a])@
                        != (#[trigger] set@[b])@ by {
                        if b < before.len() {
                            assert(set@[a] == before[a] && set@[b] == before[b]);
                        } else {
                            assert(set@[a] == before[a]);
                        }
                    }
                }
                assert(set@.len() >= before.len());
                assert(forall|k: int| 0 <= k < before.len() ==> set@[k] == before[k]);
                assert forall|x: Seq<char>| #[trigger] in_views(set@, x) <==> normalized_in(list@, i + 1, x) by {
                    if in_views(set@, x) {
                        let k = choose|k: int| 0 <= k < set@.len() && #[trigger] set@[k]@ == x;
                        if k < before.len() {
                            assert(set@[k] == before[k]);
                            assert(in_views(before, x));
                            let j = choose|j: int| 0 <= j < i && normalize_ext(#[trigger] list@[j]@) == x;
                            assert(0 <= j < i + 1);
                        } else {
                            assert(normalize_ext(list@[i as int]@) == x);
                        }
                    }
                    if normalized_in(list@, i + 1, x) {
                        let j = choose|j: int| 0 <= j < i + 1 && normalize_ext(#[trigger] list@[j]@) == x;
                        if j < i {
                            assert(normalized_in(list@, i as int, x));
                            assert(in_views(before, x));
                            let k = choose|k: int| 0 <= k < before.len() && #[trigger] before[k]@ == x;
                            assert(set@[k] == before[k]);
                        } else if in_views(before, x) {
                            let k = choose|k: int| 0 <= k < before.len() && #[trigger] before[k]@ == x;
                            assert(set@[k] == before[k]);
                        } else {
                            assert(set@[before.len() as int]@ == x);
                        }
                    }
                }
            }
            assert(list@.subrange(0, list@.len() as int) =~= list@);
            Some(set)
        },
        None => None,
    };

    let regex_filter = match &args.regex {
        Some(pattern) => match compile_regex(pattern.as_str()) {
            Ok(re) => Some(re),
            Err(e) => {
                let msg = String::from_str("invalid regex \"").concat(pattern.as_str()).concat(
                    "\": ",
                ).concat(regex_error_text(&e).as_str());
                assert(("invalid regex \""@ + pattern@ + "\": "@).is_prefix_of(msg@));
                return Err(
                    ParseError::Args(ArgParseError { details: ArgParseErrorType::BadRegex(msg) }),
                );
            },
        },
        None => None,
    };

    Ok(
        PrintOptions {
            sort_by,
            extension_filters,
            show_hidden: args.show_hidden,
            regex_filter,
            long_format: args.long_format,
            write_json: args.write_json,
        },
    )
}

} // verus!
