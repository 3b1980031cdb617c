//! The command line, and the texts that the program shows about browsers.
use vstd::prelude::*;

use crate::browsers::Browser;
use crate::text::{chars_of, decimal, decimal_string, opt_view, same_text};

verus! {

/// Whether a command-line argument is a flag: it starts with `--`, or is `-h`.
pub open spec fn is_flag(a: Seq<char>) -> bool {
    ||| a.len() >= 2 && a[0] == '-' && a[1] == '-'
    ||| a =~= seq!['-', 'h']
}

/// Whether a command-line argument is a flag: it starts with `--`, or is `-h`.
pub fn is_flag_arg(a: &String) -> (r: bool)
    ensures
        r == is_flag(a@),
{
    let v = chars_of(a.as_str());
    if v.len() >= 2 && v[0] == '-' && v[1] == '-' {
        return true;
    }
    let r = v.len() == 2 && v[0] == '-' && v[1] == 'h';
    proof {
        if r {
            assert(a@ =~= seq!['-', 'h']);
        }
    }
    r
}

/// The first argument that is (or, with `flag` false, is not) a flag.
pub open spec fn first_arg(args: Seq<Seq<char>>, flag: bool) -> Option<Seq<char>>
    decreases args.len(),
{
    if args.len() == 0 {
        None
    } else if is_flag(args[0]) == flag {
        Some(args[0])
    } else {
        first_arg(args.drop_first(), flag)
    }
}

/// The first argument that is (or is not) a flag is the one at the first
/// index where an argument is (or is not) one; there is none when no
/// argument is (or is not) one.
pub proof fn lemma_first_arg(args: Seq<Seq<char>>, flag: bool)
    ensures
        forall|k: int|
            0 <= k < args.len() && is_flag(#[trigger] args[k]) == flag && (forall|m: int| 0 <= m < k ==> is_flag(args[m]) != flag)
                ==> first_arg(args, flag) == Some(args[k]),
        (forall|k: int| 0 <= k < args.len() ==> is_flag(#[trigger] args[k]) != flag) <==> first_arg(args, flag) is None,
    decreases args.len(),
{
    if args.len() > 0 {
        let t = args.drop_first();
        lemma_first_arg(t, flag);
        assert forall|k: int|
            0 <= k < args.len() && is_flag(#[trigger] args[k]) == flag && (forall|m: int| 0 <= m < k ==> is_flag(args[m]) != flag)
                implies first_arg(args, flag) == Some(args[k]) by {
            if k > 0 {
                assert(is_flag(args[0]) != flag);
                assert(t[k - 1] == args[k]);
                assert forall|m: int| 0 <= m < k - 1 implies is_flag(t[m]) != flag by {
                    assert(t[m] == args[m + 1]);
                }
            }
        }
        if forall|k: int| 0 <= k < args.len() ==> is_flag(#[trigger] args[k]) != flag {
            assert(is_flag(args[0]) != flag);
            assert forall|k: int| 0 <= k < t.len() implies is_flag(#[trigger] t[k]) != flag by {
                assert(t[k] == args[k + 1]);
            }
        }
        if first_arg(args, flag) is None {
            assert(is_flag(args[0]) != flag);
            assert forall|k: int| 0 <= k < args.len() implies is_flag(#[trigger] args[k]) != flag by {
                if k > 0 {
                    assert(args[k] == t[k - 1]);
                }
            }
        }
    }
}

/// The arguments' texts.
pub open spec fn arg_views(args: Seq<String>) -> Seq<Seq<char>> {
    args.map_values(|a: String| a@)
}

/// Splits the arguments (without the program name): the first flag wins,
/// and the first argument that is not a flag is the URL. Returns
/// (URL, flag).
pub fn parse_args(args: Vec<String>) -> (r: (Option<String>, Option<String>))
    ensures
        opt_view(r.0) == first_arg(arg_views(args@), false),
        opt_view(r.1) == first_arg(arg_views(args@), true),
{
    let ghost all = arg_views(args@);
    let mut args = args;
    let mut url: Option<String> = None;
    let mut flag: Option<String> = None;
    let ghost mut i: int = 0;
    proof {
        assert(arg_views(args@) =~= all.skip(0));
    }
    while args.len() > 0
        invariant
            0 <= i <= all.len(),
            arg_views(args@) == all.skip(i),
            first_arg(all, false) == match url {
                Some(u) => Some(u@),
                None => first_arg(all.skip(i), false),
            },
            first_arg(all, true) == match flag {
                Some(f) => Some(f@),
                None => first_arg(all.skip(i), true),
            },
        decreases args@.len(),
    {
        let ghost before = args@;
        let a = args.remove(0);
        proof {
            assert(arg_views(before)[0] == all.skip(i)[0]);
            assert(a@ == all.skip(i)[0]);
            assert(all.skip(i).drop_first() =~= all.skip(i + 1));
            assert(arg_views(args@) =~= arg_views(before).drop_first());
        }
        if is_flag_arg(&a) {
            if flag.is_none() {
                flag = Some(a);
            }
        } else if url.is_none() {
            url = Some(a);
        }
        proof {
            i = i + 1;
        }
    }
    proof {
        assert(all.skip(i) =~= Seq::<Seq<char>>::empty());
    }
    (url, flag)
}

/// What the program was asked to do.
#[derive(Clone, Debug)]
pub enum Command {
    /// Register as a selectable browser.
    Register,
    /// Remove the registration.
    Unregister,
    /// List the detected browsers.
    List,
    /// Show the help text.
    Help,
    /// Show the picker for a URL.
    Pick(String),
    /// Open the home window.
    Home,
}

/// What the command line asks for: a recognised flag, else the picker for
/// the URL when there is one, else the home window.
pub fn command_for(url: Option<String>, flag: Option<String>) -> (c: Command)
    ensures
        match flag {
            Some(f) if f@ == "--register"@ => c is Register,
            Some(f) if f@ == "--unregister"@ => c is Unregister,
            Some(f) if f@ == "--list"@ => c is List,
            Some(f) if f@ == "--help"@ || f@ == "-h"@ => c is Help,
            _ => match url {
                Some(u) => c matches Command::Pick(p) && p@ == u@,
                None => c is Home,
            },
        },
{
    match flag {
        Some(f) => {
            if same_text(f.as_str(), "--register") {
                return Command::Register;
            }
            if same_text(f.as_str(), "--unregister") {
                return Command::Unregister;
            }
            if same_text(f.as_str(), "--list") {
                return Command::List;
            }
            if same_text(f.as_str(), "--help") || same_text(f.as_str(), "-h") {
                return Command::Help;
            }
        },
        None => {},
    }
    match url {
        Some(u) => Command::Pick(u),
        None => Command::Home,
    }
}

/// The label of picker row `i`: its number `1`..`9` and the name, or the
/// name alone, indented, from the tenth row on.
pub open spec fn picker_label_text(i: nat, name: Seq<char>) -> Seq<char> {
    if i < 9 {
        decimal(i + 1) + "      "@ + name
    } else {
        "       "@ + name
    }
}

/// The label of picker row `i`.
pub fn picker_label(i: usize, name: &String) -> (r: String)
    ensures
        r@ == picker_label_text(i as nat, name@),
{
    if i < 9 {
        let mut s = decimal_string(i + 1);
        s.append("      ");
        s.append(name.as_str());
        s
    } else {
        let mut s = String::new();
        s.append("       ");
        s.append(name.as_str());
        proof {
            assert(s@ =~= "       "@ + name@);
        }
        s
    }
}

/// One numbered line per browser: `"{prefix}{i+1}.  {name}"`.
pub open spec fn numbered_line(prefix: Seq<char>, i: nat, name: Seq<char>) -> Seq<char> {
    prefix + decimal(i + 1) + ".  "@ + name
}

/// The lines the home window shows about the browsers.
pub open spec fn home_info_lines(list: Seq<Browser>) -> Seq<Seq<char>> {
    if list.len() == 0 {
        seq!["No browsers detected."@]
    } else {
        seq!["Detected "@ + decimal(list.len()) + " browser(s):"@] + Seq::new(
            list.len(),
            |i: int| numbered_line("    "@, i as nat, list[i].name@),
        )
    }
}

/// The lines the home window shows about the browsers: how many were
/// detected, then each browser's number and name.
pub fn home_info(list: &Vec<Browser>) -> (r: Vec<String>)
    requires
        list@.len() < usize::MAX,
    ensures
        r@.map_values(|s: String| s@) == home_info_lines(list@),
{
    let mut r: Vec<String> = Vec::new();
    if list.len() == 0 {
        r.push("No browsers detected.".to_owned());
        proof {
            assert(r@.map_values(|s: String| s@) =~= home_info_lines(list@));
        }
        return r;
    }
    let mut head = String::new();
    head.append("Detected ");
    head.append(decimal_string(list.len()).as_str());
    head.append(" browser(s):");
    r.push(head);
    let mut i: usize = 0;
    while i < list.len()
        invariant
            i <= list@.len(),
            list@.len() < usize::MAX,
            list@.len() > 0,
            r@.map_values(|s: String| s@) =~= home_info_lines(list@).take(i + 1),
        decreases list@.len() - i,
    {
        let mut line = String::new();
        line.append("    ");
        line.append(decimal_string(i + 1).as_str());
        line.append(".  ");
        line.append(list[i].name.as_str());
        let ghost before = r@;
        r.push(line);
        proof {
            assert(r@.map_values(|s: String| s@) =~= before.map_values(|s: String| s@).push(line@));
            assert(home_info_lines(list@).take(i + 2) =~= home_info_lines(list@).take(i + 1).push(
                home_info_lines(list@)[i + 1],
            ));
        }
        i = i + 1;
    }
    proof {
        assert(home_info_lines(list@).take(i + 1) =~= home_info_lines(list@));
    }
    r
}

/// The text `--list` shows: how many browsers were detected and, for each,
/// its number, name and executable.
pub open spec fn list_text_of(list: Seq<Browser>) -> Seq<char>
    decreases list.len(),
{
    if list.len() == 0 {
        "No browsers were detected."@
    } else {
        "Detected "@ + decimal(list.len()) + " browser(s):\n\n"@ + list_entries(list, list.len() as int)
    }
}

/// The entries of the first `n` browsers of the `--list` text.
pub open spec fn list_entries(list: Seq<Browser>, n: int) -> Seq<char>
    decreases n,
{
    if n <= 0 {
        Seq::empty()
    } else {
        list_entries(list, n - 1) + decimal(n as nat) + ".  "@ + list[n - 1].name@ + "\n     "@ + list[n
            - 1].exe@ + "\n"@
    }
}

/// Entry `k` of the `--list` text (counting from 0) follows the entries
/// before it and carries the number `k + 1`, the browser's name and its
/// executable; the first entries do not depend on the browsers after them.
pub proof fn lemma_list_entries(list: Seq<Browser>, more: Seq<Browser>, k: int)
    requires
        0 <= k < list.len(),
    ensures
        list_entries(list, k + 1) == list_entries(list, k) + decimal((k + 1) as nat) + ".  "@ + list[k].name@
            + "\n     "@ + list[k].exe@ + "\n"@,
        list_entries(list + more, k + 1) == list_entries(list, k + 1),
    decreases k,
{
    if k > 0 {
        lemma_list_entries(list, more, k - 1);
    } else {
        assert(list_entries(list + more, 0) == list_entries(list, 0));
    }
    assert((list + more)[k] == list[k]);
    assert(list_entries(list + more, k + 1) == list_entries(list + more, k) + decimal((k + 1) as nat) + ".  "@
        + (list + more)[k].name@ + "\n     "@ + (list + more)[k].exe@ + "\n"@);
}

/// The `--list` text starts with the number of browsers detected, or says
/// that none was; the home window's lines do the same and then show line
/// `k + 1` as browser `k`'s number `k + 1` and name.
pub proof fn lemma_browser_counts(list: Seq<Browser>)
    ensures
        list.len() == 0 ==> list_text_of(list) == "No browsers were detected."@,
        list.len() > 0 ==> list_text_of(list) == "Detected "@ + decimal(list.len()) + " browser(s):\n\n"@
            + list_entries(list, list.len() as int),
        list.len() == 0 ==> home_info_lines(list) == seq!["No browsers detected."@],
        list.len() > 0 ==> home_info_lines(list).len() == list.len() + 1 && home_info_lines(list)[0] == "Detected "@
            + decimal(list.len()) + " browser(s):"@,
        forall|k: int| 0 <= k < list.len() ==> #[trigger] home_info_lines(list)[k + 1] == "    "@ + decimal(
            (k + 1) as nat,
        ) + ".  "@ + list[k].name@,
{
}

/// The text `--list` shows.
pub fn list_text(list: &Vec<Browser>) -> (r: String)
    requires
        list@.len() < usize::MAX,
    ensures
        r@ == list_text_of(list@),
{
    if list.len() == 0 {
        return "No browsers were detected.".to_owned();
    }
    let mut s = String::new();
    s.append("Detected ");
    s.append(decimal_string(list.len()).as_str());
    s.append(" browser(s):\n\n");
    let ghost head = s@;
    let mut i: usize = 0;
    proof {
        assert(head =~= "Detected "@ + decimal(list@.len()) + " browser(s):\n\n"@);
        assert(s@ =~= head + list_entries(list@, 0));
    }
    while i < list.len()
        invariant
            i <= list@.len(),
            list@.len() < usize::MAX,
            s@ == head + list_entries(list@, i as int),
        decreases list@.len() - i,
    {
        s.append(decimal_string(i + 1).as_str());
        s.append(".  ");
        s.append(list[i].name.as_str());
        s.append("\n     ");
        s.append(list[i].exe.as_str());
        s.append("\n");
        proof {
            assert(s@ =~= head + list_entries(list@, i + 1));
        }
        i = i + 1;
    }
    s
}


/// What a choice in the home window does.
#[derive(Clone, Copy, Debug, PartialEq, Eq, Structural)]
pub enum HomeAction {
    /// Register, then open Windows "Default apps".
    RegisterAndOpenDefaults,
    /// Register.
    Register,
    /// Remove the registration.
    Unregister,
    /// Nothing (the window was closed).
    Nothing,
}

/// What the home window's choice does: its buttons are "Set as default
/// browser", "Register" and "Unregister", in that order.
pub fn home_action(choice: Option<usize>) -> (a: HomeAction)
    ensures
        a == match choice {
            Some(0) => HomeAction::RegisterAndOpenDefaults,
            Some(1) => HomeAction::Register,
            Some(2) => HomeAction::Unregister,
            _ => HomeAction::Nothing,
        },
{
    match choice {
        Some(0) => HomeAction::RegisterAndOpenDefaults,
        Some(1) => HomeAction::Register,
        Some(2) => HomeAction::Unregister,
        _ => HomeAction::Nothing,
    }
}

} // verus!
