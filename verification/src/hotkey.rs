//! Keyboard shortcut strings: splitting, validating, and the defaults.

use vstd::prelude::*;

use crate::chars::chars_to_string;
use crate::chars::str_eq;
use crate::chars::str_to_chars;
use crate::clean::lemma_find_props;
use crate::clean::spec_find;
use crate::codec::find_char_from;
use crate::codec::subvec;

verus! {

/// Why a shortcut string was rejected.
#[derive(Clone, Copy, Debug, PartialEq, Eq, Structural)]
pub enum HotkeyError {
    /// A modifier is not one of the six accepted names.
    BadModifier,
    /// The main key is missing.
    EmptyKey,
}

/// The parts of a string split on `+`.
pub open spec fn spec_split_plus(s: Seq<char>) -> Seq<Seq<char>>
    decreases s.len(),
    via spec_split_plus_dec
{
    let j = spec_find(s, '+');
    if j < 0 {
        seq![s]
    } else {
        seq![s.take(j)] + spec_split_plus(s.skip(j + 1))
    }
}

#[via_fn]
proof fn spec_split_plus_dec(s: Seq<char>) {
    lemma_find_props(s, '+');
}

/// Splitting yields at least one part.
pub proof fn lemma_split_plus_len(s: Seq<char>)
    ensures
        spec_split_plus(s).len() >= 1,
{
    lemma_find_props(s, '+');
}

/// The models of the split parts.
pub open spec fn part_views(parts: Seq<String>) -> Seq<Seq<char>> {
    parts.map_values(|p: String| p@)
}

/// Splits a shortcut on `+` into its modifiers and the main key: the key is
/// the last part, the modifiers are the parts before it.
pub fn parse_shortcut(shortcut: &str) -> (r: (Vec<String>, String))
    ensures
        ({
            let parts = spec_split_plus(shortcut@);
            &&& r.0@.len() == parts.len() - 1
            &&& part_views(r.0@) == parts.drop_last()
            &&& r.1@ == parts.last()
        }),
{
    let chars = str_to_chars(shortcut);
    let n = chars.len();
    proof {
        assert(chars@.len() == n);
    }
    let mut parts: Vec<String> = Vec::new();
    let mut pos: usize = 0;
    let mut done = false;
    proof {
        assert(chars@.skip(0) =~= chars@);
        assert(part_views(parts@) =~= Seq::<Seq<char>>::empty());
        assert(part_views(parts@) + spec_split_plus(chars@) =~= spec_split_plus(chars@));
    }
    while !done
        invariant
            0 <= pos <= chars@.len(),
            chars@.len() <= usize::MAX,
            done ==> part_views(parts@) == spec_split_plus(chars@),
            !done ==> spec_split_plus(chars@) == part_views(parts@) + spec_split_plus(
                chars@.skip(pos as int),
            ),
        decreases chars@.len() - pos + (if done {
            0int
        } else {
            1int
        }),
    {
        let ghost rem = chars@.skip(pos as int);
        proof {
            lemma_find_props(rem, '+');
        }
        match find_char_from(&chars, pos, '+') {
            Some(j) => {
                proof {
                    assert(rem[j - pos] == '+');
                    assert(spec_find(rem, '+') == j - pos) by {
                        let f = spec_find(rem, '+');
                        if f < 0 {
                            assert(rem[j - pos] != '+');
                        } else {
                            if f < j - pos {
                                assert(chars@[pos + f] == rem[f]);
                            }
                            if f > j - pos {
                                assert(rem[j - pos] != '+');
                            }
                        }
                    }
                    assert(rem.take(j - pos) =~= chars@.subrange(pos as int, j as int));
                    assert(rem.skip(j - pos + 1) =~= chars@.skip(j + 1));
                }
                let piece = subvec(&chars, pos, j);
                let ghost prev = parts@;
                parts.push(chars_to_string(&piece));
                proof {
                    assert(part_views(parts@) =~= part_views(prev).push(rem.take(j - pos)));
                    assert(part_views(prev) + (seq![rem.take(j - pos)] + spec_split_plus(
                        chars@.skip(j + 1),
                    )) =~= part_views(parts@) + spec_split_plus(chars@.skip(j + 1)));
                }
                pos = j + 1;
            },
            None => {
                proof {
                    assert(spec_find(rem, '+') < 0) by {
                        let f = spec_find(rem, '+');
                        if f >= 0 {
                            assert(rem[f] == chars@[pos + f]);
                        }
                    }
                    assert(rem.take(rem.len() as int) =~= chars@.subrange(
                        pos as int,
                        chars@.len() as int,
                    ));
                }
                let piece = subvec(&chars, pos, chars.len());
                let ghost prev = parts@;
                parts.push(chars_to_string(&piece));
                proof {
                    assert(piece@ =~= rem);
                    assert(part_views(parts@) =~= part_views(prev).push(rem));
                    assert(part_views(prev) + seq![rem] =~= part_views(parts@));
                }
                done = true;
            },
        }
    }
    proof {
        lemma_split_plus_len(chars@);
        assert(parts@.len() >= 1);
    }
    let key = match parts.pop() {
        Some(k) => k,
        None => String::new(),
    };
    proof {
        let full = spec_split_plus(chars@);
        assert(part_views(parts@) =~= full.drop_last());
        assert(key@ == full.last());
    }
    (parts, key)
}

/// Whether a modifier name is one of the six accepted.
pub open spec fn spec_valid_modifier(m: Seq<char>) -> bool {
    ||| m == "Ctrl"@
    ||| m == "CmdOrCtrl"@
    ||| m == "Cmd"@
    ||| m == "Alt"@
    ||| m == "Shift"@
    ||| m == "Super"@
}

/// Checks a shortcut string: every modifier must be one of the six accepted
/// names, and the main key must not be empty.
pub fn validate_shortcut(shortcut: &str) -> (r: Result<(), HotkeyError>)
    ensures
        ({
            let parts = spec_split_plus(shortcut@);
            match r {
                Ok(_) => (forall|k: int|
                    0 <= k < parts.len() - 1 ==> spec_valid_modifier(#[trigger] parts[k]))
                    && parts.last().len() > 0,
                Err(e) => (e == HotkeyError::BadModifier <==> exists|k: int|
                    0 <= k < parts.len() - 1 && !spec_valid_modifier(#[trigger] parts[k]))
                    && (e == HotkeyError::EmptyKey ==> parts.last().len() == 0),
            }
        }),
{
    let ghost full = spec_split_plus(shortcut@);
    let (modifiers, key) = parse_shortcut(shortcut);
    let mut i: usize = 0;
    while i < modifiers.len()
        invariant
            0 <= i <= modifiers@.len(),
            full == spec_split_plus(shortcut@),
            part_views(modifiers@) == full.drop_last(),
            modifiers@.len() == full.len() - 1,
            forall|k: int| 0 <= k < i ==> spec_valid_modifier(#[trigger] full[k]),
        decreases modifiers@.len() - i,
    {
        let m = modifiers[i].as_str();
        let ok = str_eq(m, "Ctrl") || str_eq(m, "CmdOrCtrl") || str_eq(m, "Cmd") || str_eq(
            m,
            "Alt",
        ) || str_eq(m, "Shift") || str_eq(m, "Super");
        proof {
            assert(full.drop_last()[i as int] == full[i as int]);
            assert(modifiers@[i as int]@ == full[i as int]);
        }
        if !ok {
            proof {
                assert(!spec_valid_modifier(full[i as int]));
                assert(exists|k: int|
                    0 <= k < full.len() - 1 && !spec_valid_modifier(#[trigger] full[k])) by {
                    assert(0 <= (i as int) && (i as int) < full.len() - 1 && !spec_valid_modifier(
                        full[i as int],
                    ));
                }
            }
            return Err(HotkeyError::BadModifier);
        }
        i = i + 1;
    }
    proof {
        assert forall|k: int| 0 <= k < full.len() - 1 implies spec_valid_modifier(
            #[trigger] full[k],
        ) by {}
    }
    proof {
        assert(!(exists|k: int|
            0 <= k < full.len() - 1 && !spec_valid_modifier(#[trigger] full[k]))) by {
            if exists|k: int| 0 <= k < full.len() - 1 && !spec_valid_modifier(#[trigger] full[k]) {
                let k = choose|k: int|
                    0 <= k < full.len() - 1 && !spec_valid_modifier(#[trigger] full[k]);
                assert(spec_valid_modifier(full[k]));
            }
        }
    }
    if key.as_str().unicode_len() == 0 {
        return Err(HotkeyError::EmptyKey);
    }
    Ok(())
}

/// The default hotkey bindings, as action and shortcut pairs.
pub fn get_default_hotkeys() -> (r: Vec<(String, String)>)
    ensures
        r@.len() == 5,
        r@[0].0@ == "toggle_window"@ && r@[0].1@ == "CmdOrCtrl+Shift+W"@,
        r@[1].0@ == "next_word"@ && r@[1].1@ == "CmdOrCtrl+Right"@,
        r@[2].0@ == "prev_word"@ && r@[2].1@ == "CmdOrCtrl+Left"@,
        r@[3].0@ == "play_pronunciation"@ && r@[3].1@ == "Space"@,
        r@[4].0@ == "pause_learning"@ && r@[4].1@ == "CmdOrCtrl+P"@,
{
    let mut r: Vec<(String, String)> = Vec::new();
    r.push(("toggle_window".to_owned(), "CmdOrCtrl+Shift+W".to_owned()));
    r.push(("next_word".to_owned(), "CmdOrCtrl+Right".to_owned()));
    r.push(("prev_word".to_owned(), "CmdOrCtrl+Left".to_owned()));
    r.push(("play_pronunciation".to_owned(), "Space".to_owned()));
    r.push(("pause_learning".to_owned(), "CmdOrCtrl+P".to_owned()));
    r
}

} // verus!
