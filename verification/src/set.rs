use vstd::prelude::*;

use crate::storage_result::{StorageError, StorageResult};
use crate::text::{
    all_ascii, ascii_lower, has_text, join, joined, lowercase_of, parse_u64, parsed_u64, to_lowercase,
    views,
};

verus! {

/// The `NX` / `XX` condition of `SET`: set only if the key does not exist /
/// already exists.
#[derive(Debug, PartialEq, Eq, Clone, Copy)]
pub enum KeyExistence {
    NX,
    XX,
}

/// The `EX` / `PX` option of `SET`: an expiry in seconds / in milliseconds.
#[derive(Debug, PartialEq, Eq, Clone, Copy)]
pub enum KeyExpiry {
    EX(u64),
    PX(u64),
}

/// The options that follow the key and the value of a `SET` command.
#[derive(Debug, PartialEq, Eq, Clone, Copy)]
pub struct SetArgs {
    pub expiry: Option<KeyExpiry>,
    pub existence: Option<KeyExistence>,
    pub get: bool,
}

/// The options of a `SET` command that names none.
pub open spec fn no_set_args() -> SetArgs {
    SetArgs { expiry: None, existence: None, get: false }
}

impl SetArgs {
    /// No expiry, no existence condition, no `GET`.
    pub fn new() -> (r: Self)
        ensures
            r == no_set_args(),
    {
        SetArgs { expiry: None, existence: None, get: false }
    }
}

/// Reads the options from position `idx` on, having read `acc` so far.
/// `raw` holds the arguments as given, `lowered` the same arguments lower-cased:
/// the option names are matched in `lowered`, the numbers read from `raw`.
/// `None` is a syntax error.
pub open spec fn set_options_from(
    raw: Seq<Seq<char>>,
    lowered: Seq<Seq<char>>,
    idx: int,
    acc: SetArgs,
) -> Option<SetArgs>
    decreases raw.len() - idx,
{
    if idx < 0 || idx >= raw.len() {
        Some(acc)
    } else {
        let w = lowered[idx];
        if w == "nx"@ {
            if acc.existence == Some(KeyExistence::XX) {
                None
            } else {
                set_options_from(
                    raw,
                    lowered,
                    idx + 1,
                    SetArgs { expiry: acc.expiry, existence: Some(KeyExistence::NX), get: acc.get },
                )
            }
        } else if w == "xx"@ {
            if acc.existence == Some(KeyExistence::NX) {
                None
            } else {
                set_options_from(
                    raw,
                    lowered,
                    idx + 1,
                    SetArgs { expiry: acc.expiry, existence: Some(KeyExistence::XX), get: acc.get },
                )
            }
        } else if w == "get"@ {
            set_options_from(
                raw,
                lowered,
                idx + 1,
                SetArgs { expiry: acc.expiry, existence: acc.existence, get: true },
            )
        } else if w == "ex"@ {
            if acc.expiry matches Some(KeyExpiry::PX(_)) {
                None
            } else if idx + 1 == raw.len() {
                None
            } else {
                match parsed_u64(raw[idx + 1]) {
                    None => None,
                    Some(v) => set_options_from(
                        raw,
                        lowered,
                        idx + 2,
                        SetArgs { expiry: Some(KeyExpiry::EX(v)), existence: acc.existence, get: acc.get },
                    ),
                }
            }
        } else if w == "px"@ {
            if acc.expiry matches Some(KeyExpiry::EX(_)) {
                None
            } else if idx + 1 == raw.len() {
                None
            } else {
                match parsed_u64(raw[idx + 1]) {
                    None => None,
                    Some(v) => set_options_from(
                        raw,
                        lowered,
                        idx + 2,
                        SetArgs { expiry: Some(KeyExpiry::PX(v)), existence: acc.existence, get: acc.get },
                    ),
                }
            }
        } else {
            None
        }
    }
}

/// The options that a whole argument list gives, or `None` for a syntax error.
pub open spec fn set_options(raw: Seq<Seq<char>>, lowered: Seq<Seq<char>>) -> Option<SetArgs> {
    set_options_from(raw, lowered, 0, no_set_args())
}

/// Each word lower-cased.
pub open spec fn lowered_words(words: Seq<Seq<char>>) -> Seq<Seq<char>> {
    words.map_values(|w: Seq<char>| lowercase_of(w))
}

/// Each word with its ASCII upper-case letters made lower-case.
pub open spec fn ascii_lowered_words(words: Seq<Seq<char>>) -> Seq<Seq<char>> {
    words.map_values(|w: Seq<char>| ascii_lower(w))
}

/// Every word is ASCII.
pub open spec fn all_words_ascii(words: Seq<Seq<char>>) -> bool {
    forall|i: int| 0 <= i < words.len() ==> #[trigger] all_ascii(words[i])
}

/// The result of reading the options of `SET` from `raw` whose lower-cased
/// words are `lowered`: the options, or a syntax error that quotes the whole
/// argument list joined by single spaces.
pub open spec fn set_arguments_result(
    raw: Seq<Seq<char>>,
    lowered: Seq<Seq<char>>,
    r: StorageResult<SetArgs>,
) -> bool {
    match set_options(raw, lowered) {
        Some(a) => r == Ok::<SetArgs, StorageError>(a),
        None => r matches Err(StorageError::CommandSyntaxError(m)) && m@ == joined(raw, " "@),
    }
}

/// Reads the options of `SET` from `arguments`, given the same arguments
/// lower-cased in `lowered`.
pub fn parse_lowered_set_arguments(arguments: &Vec<String>, lowered: &Vec<String>) -> (r:
    StorageResult<SetArgs>)
    requires
        lowered.len() == arguments.len(),
    ensures
        set_arguments_result(views(arguments@), views(lowered@), r),
{
    let ghost raw = views(arguments@);
    let ghost low = views(lowered@);
    let n = arguments.len();
    let mut args = SetArgs::new();
    let mut idx: usize = 0;
    while idx < n
        invariant
            n == arguments.len(),
            n == lowered.len(),
            raw == views(arguments@),
            low == views(lowered@),
            idx <= n,
            set_options_from(raw, low, idx as int, args) == set_options(raw, low),
        decreases n - idx,
    {
        let w = &lowered[idx];
        assert(low[idx as int] == w@);
        if has_text(w, "nx") {
            if let Some(KeyExistence::XX) = args.existence {
                return Err(StorageError::CommandSyntaxError(join(arguments, " ")));
            }
            args.existence = Some(KeyExistence::NX);
            idx = idx + 1;
        } else if has_text(w, "xx") {
            if let Some(KeyExistence::NX) = args.existence {
                return Err(StorageError::CommandSyntaxError(join(arguments, " ")));
            }
            args.existence = Some(KeyExistence::XX);
            idx = idx + 1;
        } else if has_text(w, "get") {
            args.get = true;
            idx = idx + 1;
        } else if has_text(w, "ex") {
            if let Some(KeyExpiry::PX(_)) = args.expiry {
                return Err(StorageError::CommandSyntaxError(join(arguments, " ")));
            }
            if idx + 1 == n {
                return Err(StorageError::CommandSyntaxError(join(arguments, " ")));
            }
            assert(raw[idx + 1] == arguments[idx + 1 as int]@);
            match parse_u64(arguments[idx + 1].as_str()) {
                None => {
                    return Err(StorageError::CommandSyntaxError(join(arguments, " ")));
                },
                Some(value) => {
                    args.expiry = Some(KeyExpiry::EX(value));
                },
            }
            idx = idx + 2;
        } else if has_text(w, "px") {
            if let Some(KeyExpiry::EX(_)) = args.expiry {
                return Err(StorageError::CommandSyntaxError(join(arguments, " ")));
            }
            if idx + 1 == n {
                return Err(StorageError::CommandSyntaxError(join(arguments, " ")));
            }
            assert(raw[idx + 1] == arguments[idx + 1 as int]@);
            match parse_u64(arguments[idx + 1].as_str()) {
                None => {
                    return Err(StorageError::CommandSyntaxError(join(arguments, " ")));
                },
                Some(value) => {
                    args.expiry = Some(KeyExpiry::PX(value));
                },
            }
            idx = idx + 2;
        } else {
            return Err(StorageError::CommandSyntaxError(join(arguments, " ")));
        }
    }
    Ok(args)
}

/// Reads the options that follow the key and the value of a `SET` command.
/// Option names are matched whatever their case; a syntax error quotes the
/// whole argument list joined by single spaces.
pub fn parse_set_arguments(arguments: &Vec<String>) -> (r: StorageResult<SetArgs>)
    ensures
        set_arguments_result(views(arguments@), lowered_words(views(arguments@)), r),
        all_words_ascii(views(arguments@)) ==> set_arguments_result(
            views(arguments@),
            ascii_lowered_words(views(arguments@)),
            r,
        ),
{
    let n = arguments.len();
    let mut lowered: Vec<String> = Vec::new();
    let mut i: usize = 0;
    while i < n
        invariant
            n == arguments.len(),
            i <= n,
            lowered.len() == i,
            forall|j: int| 0 <= j < i ==> #[trigger] lowered@[j]@ == lowercase_of(arguments@[j]@),
            forall|j: int|
                0 <= j < i ==> all_ascii(arguments@[j]@) ==> #[trigger] lowered@[j]@ == ascii_lower(
                    arguments@[j]@,
                ),
        decreases n - i,
    {
        lowered.push(to_lowercase(arguments[i].as_str()));
        i = i + 1;
    }
    assert(views(lowered@) =~= lowered_words(views(arguments@)));
    proof {
        if all_words_ascii(views(arguments@)) {
            assert forall|j: int| 0 <= j < n implies #[trigger] views(lowered@)[j]
                == ascii_lowered_words(views(arguments@))[j] by {
                assert(all_ascii(views(arguments@)[j]));
            }
            assert(views(lowered@) =~= ascii_lowered_words(views(arguments@)));
        }
    }
    parse_lowered_set_arguments(arguments, &lowered)
}


/// The five option names are different words.
proof fn lemma_option_names_differ()
    ensures
        "nx"@ != "xx"@,
        "nx"@ != "get"@,
        "nx"@ != "ex"@,
        "nx"@ != "px"@,
        "xx"@ != "get"@,
        "xx"@ != "ex"@,
        "xx"@ != "px"@,
        "get"@ != "ex"@,
        "get"@ != "px"@,
        "ex"@ != "px"@,
{
    reveal_strlit("nx");
    reveal_strlit("xx");
    reveal_strlit("get");
    reveal_strlit("ex");
    reveal_strlit("px");
    assert("nx"@[0] == 'n' && "xx"@[0] == 'x' && "get"@[0] == 'g' && "ex"@[0] == 'e' && "px"@[0]
        == 'p');
}

/// `NX` and `XX` exclude each other: once one is read, the other is refused.
pub proof fn law_existence_conditions_exclude(
    raw: Seq<Seq<char>>,
    lowered: Seq<Seq<char>>,
    idx: int,
    acc: SetArgs,
)
    requires
        0 <= idx < raw.len(),
        (acc.existence == Some(KeyExistence::NX) && lowered[idx] == "xx"@) || (acc.existence
            == Some(KeyExistence::XX) && lowered[idx] == "nx"@),
    ensures
        set_options_from(raw, lowered, idx, acc) is None,
{
    lemma_option_names_differ();
}

/// `EX` and `PX` exclude each other: once one is read, the other is refused.
pub proof fn law_expiry_kinds_exclude(
    raw: Seq<Seq<char>>,
    lowered: Seq<Seq<char>>,
    idx: int,
    acc: SetArgs,
)
    requires
        0 <= idx < raw.len(),
        (acc.expiry matches Some(KeyExpiry::EX(_)) && lowered[idx] == "px"@) || (
        acc.expiry matches Some(KeyExpiry::PX(_)) && lowered[idx] == "ex"@),
    ensures
        set_options_from(raw, lowered, idx, acc) is None,
{
    lemma_option_names_differ();
}

/// `EX` or `PX` as the last argument, with no number after it, is refused.
pub proof fn law_expiry_needs_a_number(
    raw: Seq<Seq<char>>,
    lowered: Seq<Seq<char>>,
    acc: SetArgs,
)
    requires
        raw.len() >= 1,
        lowered[raw.len() - 1] == "ex"@ || lowered[raw.len() - 1] == "px"@,
    ensures
        set_options_from(raw, lowered, raw.len() - 1, acc) is None,
{
    lemma_option_names_differ();
}

/// A word that names no option, where an option is expected, is refused.
pub proof fn law_unknown_option_refused(
    raw: Seq<Seq<char>>,
    lowered: Seq<Seq<char>>,
    idx: int,
    acc: SetArgs,
)
    requires
        0 <= idx < raw.len(),
        lowered[idx] != "nx"@,
        lowered[idx] != "xx"@,
        lowered[idx] != "get"@,
        lowered[idx] != "ex"@,
        lowered[idx] != "px"@,
    ensures
        set_options_from(raw, lowered, idx, acc) is None,
{
}

/// Whether two expiries are of one kind: both `EX`, both `PX`, or both absent.
pub open spec fn same_expiry_kind(a: Option<KeyExpiry>, b: Option<KeyExpiry>) -> bool {
    match (a, b) {
        (None, None) => true,
        (Some(KeyExpiry::EX(_)), Some(KeyExpiry::EX(_))) => true,
        (Some(KeyExpiry::PX(_)), Some(KeyExpiry::PX(_))) => true,
        _ => false,
    }
}

/// What is read is kept: `GET` stays on, an existence condition stays the
/// same, and an expiry keeps its kind (its number may be read again).
pub proof fn law_options_are_kept(
    raw: Seq<Seq<char>>,
    lowered: Seq<Seq<char>>,
    idx: int,
    acc: SetArgs,
)
    requires
        0 <= idx,
    ensures
        set_options_from(raw, lowered, idx, acc) matches Some(a) ==> {
            &&& acc.get ==> a.get
            &&& acc.existence is Some ==> a.existence == acc.existence
            &&& acc.expiry is Some ==> same_expiry_kind(acc.expiry, a.expiry)
        },
    decreases raw.len() - idx,
{
    if idx < raw.len() {
        let w = lowered[idx];
        if w == "nx"@ {
            law_options_are_kept(
                raw,
                lowered,
                idx + 1,
                SetArgs { expiry: acc.expiry, existence: Some(KeyExistence::NX), get: acc.get },
            );
        } else if w == "xx"@ {
            law_options_are_kept(
                raw,
                lowered,
                idx + 1,
                SetArgs { expiry: acc.expiry, existence: Some(KeyExistence::XX), get: acc.get },
            );
        } else if w == "get"@ {
            law_options_are_kept(
                raw,
                lowered,
                idx + 1,
                SetArgs { expiry: acc.expiry, existence: acc.existence, get: true },
            );
        } else if w == "ex"@ {
            if idx + 1 < raw.len() {
                if let Some(v) = parsed_u64(raw[idx + 1]) {
                    law_options_are_kept(
                        raw,
                        lowered,
                        idx + 2,
                        SetArgs { expiry: Some(KeyExpiry::EX(v)), existence: acc.existence, get: acc.get },
                    );
                }
            }
        } else if w == "px"@ {
            if idx + 1 < raw.len() {
                if let Some(v) = parsed_u64(raw[idx + 1]) {
                    law_options_are_kept(
                        raw,
                        lowered,
                        idx + 2,
                        SetArgs { expiry: Some(KeyExpiry::PX(v)), existence: acc.existence, get: acc.get },
                    );
                }
            }
        }
    }
}


/// What is read from position `idx` on depends only on the arguments from
/// `idx` on.
proof fn lemma_same_suffix(
    raw1: Seq<Seq<char>>,
    low1: Seq<Seq<char>>,
    raw2: Seq<Seq<char>>,
    low2: Seq<Seq<char>>,
    idx: int,
    acc: SetArgs,
)
    requires
        0 <= idx,
        raw1.len() == raw2.len(),
        forall|k: int| idx <= k < raw1.len() ==> raw1[k] == raw2[k] && low1[k] == low2[k],
    ensures
        set_options_from(raw1, low1, idx, acc) == set_options_from(raw2, low2, idx, acc),
    decreases raw1.len() - idx,
{
    if idx < raw1.len() {
        let w = low1[idx];
        if w == "nx"@ {
            lemma_same_suffix(
                raw1,
                low1,
                raw2,
                low2,
                idx + 1,
                SetArgs { expiry: acc.expiry, existence: Some(KeyExistence::NX), get: acc.get },
            );
        } else if w == "xx"@ {
            lemma_same_suffix(
                raw1,
                low1,
                raw2,
                low2,
                idx + 1,
                SetArgs { expiry: acc.expiry, existence: Some(KeyExistence::XX), get: acc.get },
            );
        } else if w == "get"@ {
            lemma_same_suffix(
                raw1,
                low1,
                raw2,
                low2,
                idx + 1,
                SetArgs { expiry: acc.expiry, existence: acc.existence, get: true },
            );
        } else if w == "ex"@ || w == "px"@ {
            if idx + 1 < raw1.len() {
                if let Some(v) = parsed_u64(raw1[idx + 1]) {
                    let e = if w == "ex"@ {
                        KeyExpiry::EX(v)
                    } else {
                        KeyExpiry::PX(v)
                    };
                    lemma_same_suffix(
                        raw1,
                        low1,
                        raw2,
                        low2,
                        idx + 2,
                        SetArgs { expiry: Some(e), existence: acc.existence, get: acc.get },
                    );
                }
            }
        }
    }
}

/// Reading `NX`, when no `XX` was read before, makes the existence condition
/// `NX`, whatever else was read before or comes after; reading `XX`, when no
/// `NX` was read, makes it `XX`; reading `GET` turns `GET` on.
pub proof fn law_option_words_take_effect(
    raw: Seq<Seq<char>>,
    lowered: Seq<Seq<char>>,
    idx: int,
    acc: SetArgs,
)
    requires
        0 <= idx < raw.len(),
        lowered.len() == raw.len(),
    ensures
        lowered[idx] == "nx"@ && acc.existence != Some(KeyExistence::XX) ==> (set_options_from(
            raw,
            lowered,
            idx,
            acc,
        ) matches Some(a) ==> a.existence == Some(KeyExistence::NX)),
        lowered[idx] == "xx"@ && acc.existence != Some(KeyExistence::NX) ==> (set_options_from(
            raw,
            lowered,
            idx,
            acc,
        ) matches Some(a) ==> a.existence == Some(KeyExistence::XX)),
        lowered[idx] == "get"@ ==> (set_options_from(raw, lowered, idx, acc) matches Some(a)
            ==> a.get),
        lowered[idx] == "ex"@ ==> (set_options_from(raw, lowered, idx, acc) matches Some(a)
            ==> a.expiry matches Some(KeyExpiry::EX(_))),
        lowered[idx] == "px"@ ==> (set_options_from(raw, lowered, idx, acc) matches Some(a)
            ==> a.expiry matches Some(KeyExpiry::PX(_))),
{
    lemma_option_names_differ();
    let nx = SetArgs { expiry: acc.expiry, existence: Some(KeyExistence::NX), get: acc.get };
    let xx = SetArgs { expiry: acc.expiry, existence: Some(KeyExistence::XX), get: acc.get };
    let g = SetArgs { expiry: acc.expiry, existence: acc.existence, get: true };
    law_options_are_kept(raw, lowered, idx + 1, nx);
    law_options_are_kept(raw, lowered, idx + 1, xx);
    law_options_are_kept(raw, lowered, idx + 1, g);
    if idx + 1 < raw.len() {
        if let Some(v) = parsed_u64(raw[idx + 1]) {
            law_options_are_kept(
                raw,
                lowered,
                idx + 2,
                SetArgs { expiry: Some(KeyExpiry::EX(v)), existence: acc.existence, get: acc.get },
            );
            law_options_are_kept(
                raw,
                lowered,
                idx + 2,
                SetArgs { expiry: Some(KeyExpiry::PX(v)), existence: acc.existence, get: acc.get },
            );
        }
    }
}

/// The order of an expiry and an existence condition does not matter:
/// `EX n NX` reads as `NX EX n`, and `PX n XX` as `XX PX n`, whatever comes
/// before and after them.
pub proof fn law_expiry_and_existence_commute(
    raw1: Seq<Seq<char>>,
    low1: Seq<Seq<char>>,
    raw2: Seq<Seq<char>>,
    low2: Seq<Seq<char>>,
    idx: int,
    acc: SetArgs,
)
    requires
        0 <= idx,
        idx + 3 <= raw1.len(),
        raw2.len() == raw1.len(),
        low1.len() == raw1.len(),
        low2.len() == raw2.len(),
        low1[idx] == "ex"@ || low1[idx] == "px"@,
        low1[idx + 2] == "nx"@ || low1[idx + 2] == "xx"@,
        low2[idx] == low1[idx + 2],
        low2[idx + 1] == low1[idx],
        raw2[idx + 2] == raw1[idx + 1],
        forall|k: int| idx + 3 <= k < raw1.len() ==> raw1[k] == raw2[k] && low1[k] == low2[k],
    ensures
        set_options_from(raw1, low1, idx, acc) == set_options_from(raw2, low2, idx, acc),
{
    lemma_option_names_differ();
    reveal_with_fuel(set_options_from, 4);
    let ex = low1[idx];
    let ne = low1[idx + 2];
    let e = parsed_u64(raw1[idx + 1]);
    let existence = if ne == "nx"@ {
        Some(KeyExistence::NX)
    } else {
        Some(KeyExistence::XX)
    };
    if let Some(v) = e {
        let ev = if ex == "ex"@ {
            KeyExpiry::EX(v)
        } else {
            KeyExpiry::PX(v)
        };
        let after = SetArgs { expiry: Some(ev), existence: existence, get: acc.get };
        lemma_same_suffix(raw1, low1, raw2, low2, idx + 3, after);
    }
}


/// No `EX` or `PX` from position `idx` on.
pub open spec fn no_expiry_words_from(lowered: Seq<Seq<char>>, idx: int) -> bool {
    forall|k: int| idx <= k < lowered.len() ==> #[trigger] lowered[k] != "ex"@ && lowered[k] != "px"@
}

/// Where no `EX` or `PX` is read, the expiry stays what it was.
proof fn lemma_expiry_untouched(raw: Seq<Seq<char>>, lowered: Seq<Seq<char>>, idx: int, acc: SetArgs)
    requires
        0 <= idx,
        lowered.len() == raw.len(),
        no_expiry_words_from(lowered, idx),
    ensures
        set_options_from(raw, lowered, idx, acc) matches Some(a) ==> a.expiry == acc.expiry,
    decreases raw.len() - idx,
{
    if idx < raw.len() {
        let w = lowered[idx];
        assert(w != "ex"@ && w != "px"@);
        if w == "nx"@ {
            lemma_expiry_untouched(
                raw,
                lowered,
                idx + 1,
                SetArgs { expiry: acc.expiry, existence: Some(KeyExistence::NX), get: acc.get },
            );
        } else if w == "xx"@ {
            lemma_expiry_untouched(
                raw,
                lowered,
                idx + 1,
                SetArgs { expiry: acc.expiry, existence: Some(KeyExistence::XX), get: acc.get },
            );
        } else if w == "get"@ {
            lemma_expiry_untouched(
                raw,
                lowered,
                idx + 1,
                SetArgs { expiry: acc.expiry, existence: acc.existence, get: true },
            );
        }
    }
}

/// The expiry is the number that follows the last `EX` or `PX`: `EX n` (or
/// `PX n`) with no `EX` or `PX` after it gives the expiry `EX(n)` (or `PX(n)`),
/// whatever the other options.
pub proof fn law_expiry_is_the_number_read(
    raw: Seq<Seq<char>>,
    lowered: Seq<Seq<char>>,
    idx: int,
    acc: SetArgs,
    n: u64,
)
    requires
        0 <= idx,
        idx + 2 <= raw.len(),
        lowered.len() == raw.len(),
        lowered[idx] == "ex"@ || lowered[idx] == "px"@,
        parsed_u64(raw[idx + 1]) == Some(n),
        no_expiry_words_from(lowered, idx + 2),
    ensures
        set_options_from(raw, lowered, idx, acc) matches Some(a) ==> a.expiry == Some(
            if lowered[idx] == "ex"@ {
                KeyExpiry::EX(n)
            } else {
                KeyExpiry::PX(n)
            },
        ),
{
    lemma_option_names_differ();
    let e = if lowered[idx] == "ex"@ {
        KeyExpiry::EX(n)
    } else {
        KeyExpiry::PX(n)
    };
    lemma_expiry_untouched(
        raw,
        lowered,
        idx + 2,
        SetArgs { expiry: Some(e), existence: acc.existence, get: acc.get },
    );
}

} // verus!
