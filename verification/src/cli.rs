//! The operations the command-line layer maps user actions onto: add, get,
//! list, remove, and reset, each producing the data the caller must persist
//! or display.

use vstd::prelude::*;
use vstd::string::*;

use crate::config::{encode_config, parse_doc_spec, pretty_doc_of, store_doc, ConfigSaveError};
use crate::dirmark::{joined, Dirmarks};

verus! {

/// The parsed command-line request, as plain values.
#[derive(Clone, Debug)]
pub struct Cli {
    pub dir: Option<String>,
    pub key: Vec<String>,
    pub list: bool,
    pub get: Vec<String>,
    pub remove: Vec<String>,
    pub reset_config: bool,
}

/// A failure of one of the command-line operations.
#[derive(Clone, Copy, Debug, PartialEq, Eq)]
pub enum CliError {
    /// No key segments were given for an add.
    NoKeyGiven,
    /// The key to remove does not exist.
    KeyNotFound,
    /// The updated store could not be serialized.
    Save(ConfigSaveError),
}

/// Relies on String::push: appends the given character to the end of the
/// string.
pub assume_specification[ String::push ](s: &mut String, c: char)
    ensures
        final(s)@ == old(s)@.push(c),
;

/// Adds or overwrites the bookmark at the request's key segments, and
/// serializes the updated store for the caller to persist.
pub fn add_dirmark(cli: &Cli, dir: String, dirmarks: &mut Dirmarks) -> (r: Result<
    String,
    CliError,
>)
    requires
        old(dirmarks).wf(),
    ensures
        final(dirmarks).wf(),
        cli.key@.len() == 0 ==> r == Err::<String, CliError>(CliError::NoKeyGiven)
            && final(dirmarks)@ == old(dirmarks)@,
        cli.key@.len() > 0 ==> final(dirmarks).as_map() == old(dirmarks).as_map().insert(
            joined(cli.key.deep_view()),
            dir@,
        ),
        cli.key@.len() > 0 ==> r is Ok,
        cli.key@.len() > 0 ==> (r matches Ok(s) ==> s@ == pretty_doc_of(store_doc(
            final(dirmarks)@,
        )) && parse_doc_spec(s@) == Some(store_doc(final(dirmarks)@))),
        r matches Err(e) ==> e == CliError::NoKeyGiven,
{
    if cli.key.is_empty() {
        return Err(CliError::NoKeyGiven);
    }
    dirmarks.insert(&cli.key, dir);
    match encode_config(dirmarks) {
        Ok(s) => Ok(s),
        Err(e) => Err(CliError::Save(e)),
    }
}

/// Fetches the path stored at the request's key segments.
pub fn get_dirmark(cli: &Cli, dirmarks: &Dirmarks) -> (r: Option<String>)
    requires
        dirmarks.wf(),
    ensures
        match r {
            Some(p) => dirmarks.as_map().contains_key(joined(cli.get.deep_view())) && p@
                == dirmarks.as_map()[joined(cli.get.deep_view())],
            None => !dirmarks.as_map().contains_key(joined(cli.get.deep_view())),
        },
{
    match dirmarks.get(&cli.get) {
        Some(d) => Some(d.path.clone()),
        None => None,
    }
}

/// Removes the bookmark at the request's key segments; an absent key is a
/// failure and leaves the store unchanged, otherwise the updated store is
/// serialized for the caller to persist.
pub fn remove_dirmark(cli: &Cli, dirmarks: &mut Dirmarks) -> (r: Result<String, CliError>)
    requires
        old(dirmarks).wf(),
    ensures
        final(dirmarks).wf(),
        !old(dirmarks).as_map().contains_key(joined(cli.remove.deep_view()))
            ==> r == Err::<String, CliError>(CliError::KeyNotFound)
            && final(dirmarks)@ == old(dirmarks)@,
        old(dirmarks).as_map().contains_key(joined(cli.remove.deep_view()))
            ==> final(dirmarks).as_map() == old(dirmarks).as_map().remove(joined(cli.remove.deep_view()))
            && r is Ok
            && (r matches Ok(s) ==> s@ == pretty_doc_of(store_doc(final(dirmarks)@))
                && parse_doc_spec(s@) == Some(store_doc(final(dirmarks)@))),
{
    match dirmarks.delete(&cli.remove) {
        Some(_) => match encode_config(dirmarks) {
            Ok(s) => Ok(s),
            Err(e) => Err(CliError::Save(e)),
        },
        None => Err(CliError::KeyNotFound),
    }
}

/// Builds the serialized form of a fresh empty store, used to reset or
/// recreate the config file.
pub fn reset_config() -> (r: Result<String, ConfigSaveError>)
    ensures
        r is Ok,
        r matches Ok(s) ==> s@ == pretty_doc_of(store_doc(Seq::empty())) && parse_doc_spec(s@)
            == Some(store_doc(Seq::empty())),
{
    let st = Dirmarks::new();
    proof {
        assert(st@ =~= Seq::<(Seq<char>, Seq<char>)>::empty());
    }
    encode_config(&st)
}

} // verus!

verus! {

/// A key as displayed: every `.` delimiter shown as a space.
pub open spec fn display_key(k: Seq<char>) -> Seq<char> {
    k.map_values(|c: char| if c == '.' { ' ' } else { c })
}

/// `n` spaces.
pub open spec fn spaces(n: nat) -> Seq<char>
    decreases n,
{
    if n == 0 {
        Seq::empty()
    } else {
        spaces((n - 1) as nat).push(' ')
    }
}

/// The length of the longest key among the entries.
pub open spec fn max_key_len(s: Seq<(Seq<char>, Seq<char>)>) -> nat
    decreases s.len(),
{
    if s.len() == 0 {
        0
    } else {
        let rest = max_key_len(s.drop_last());
        if s.last().0.len() > rest {
            s.last().0.len()
        } else {
            rest
        }
    }
}

proof fn lemma_max_key_len_ge(s: Seq<(Seq<char>, Seq<char>)>, i: int)
    requires
        0 <= i < s.len(),
    ensures
        max_key_len(s) >= s[i].0.len(),
    decreases s.len(),
{
    if i < s.len() - 1 {
        assert(s.drop_last()[i] == s[i]);
        lemma_max_key_len_ge(s.drop_last(), i);
    }
}

/// One listing line: the displayed key, padded to the width `w`, then the
/// separator, the path, and a line break.
pub open spec fn line_of(e: (Seq<char>, Seq<char>), w: nat) -> Seq<char> {
    display_key(e.0) + spaces((w - e.0.len()) as nat) + "  =>  "@ + e.1 + "\n"@
}

/// The whole listing, one line per entry in store order.
pub open spec fn listing(s: Seq<(Seq<char>, Seq<char>)>, w: nat) -> Seq<char>
    decreases s.len(),
{
    if s.len() == 0 {
        Seq::empty()
    } else {
        listing(s.drop_last(), w) + line_of(s.last(), w)
    }
}

/// Renders all bookmarks, in key order, with the keys' dots shown as spaces
/// and the paths aligned past the longest key.
pub fn list_dirmarks(dirmarks: &Dirmarks) -> (r: String)
    requires
        dirmarks.wf(),
    ensures
        r@ == listing(dirmarks@, max_key_len(dirmarks@)),
{
    let all = dirmarks.get_all();
    let n = all.len();
    let mut w: usize = 0;
    let mut i: usize = 0;
    while i < n
        invariant
            i <= n,
            n == all@.len(),
            all@.len() == dirmarks@.len(),
            forall|j: int|
                0 <= j < dirmarks@.len() ==> (#[trigger] all@[j]).0@ == dirmarks@[j].0
                    && all@[j].1.path@ == dirmarks@[j].1,
            w == max_key_len(dirmarks@.take(i as int)),
        decreases n - i,
    {
        let kl = all[i].0.as_str().unicode_len();
        proof {
            assert(dirmarks@.take(i as int + 1).drop_last() =~= dirmarks@.take(i as int));
            assert(dirmarks@.take(i as int + 1).last() == dirmarks@[i as int]);
        }
        if kl > w {
            w = kl;
        }
        i = i + 1;
    }
    proof {
        assert(dirmarks@.take(n as int) =~= dirmarks@);
    }
    let mut out = String::new();
    let mut i: usize = 0;
    while i < n
        invariant
            i <= n,
            n == all@.len(),
            all@.len() == dirmarks@.len(),
            forall|j: int|
                0 <= j < dirmarks@.len() ==> (#[trigger] all@[j]).0@ == dirmarks@[j].0
                    && all@[j].1.path@ == dirmarks@[j].1,
            w == max_key_len(dirmarks@),
            out@ == listing(dirmarks@.take(i as int), w as nat),
        decreases n - i,
    {
        let ghost k = dirmarks@[i as int].0;
        let ghost base = out@;
        let key = &all[i].0;
        let klen = key.as_str().unicode_len();
        let mut c: usize = 0;
        while c < klen
            invariant
                c <= klen,
                klen == k.len(),
                k == dirmarks@[i as int].0,
                0 <= i < all@.len(),
                all@[i as int].0@ == k,
                key == &all@[i as int].0,
                out@ == base + display_key(k).take(c as int),
            decreases klen - c,
        {
            let ch = key.as_str().get_char(c);
            proof {
                assert(display_key(k)[c as int] == (if k[c as int] == '.' {
                    ' '
                } else {
                    k[c as int]
                }));
                assert(display_key(k).take(c as int + 1) =~= display_key(k).take(
                    c as int,
                ).push(display_key(k)[c as int]));
            }
            if ch == '.' {
                out.push(' ');
            } else {
                out.push(ch);
            }
            proof {
                assert(out@ =~= base + display_key(k).take(c as int + 1));
            }
            c = c + 1;
        }
        proof {
            assert(display_key(k).take(klen as int) =~= display_key(k));
            lemma_max_key_len_ge(dirmarks@, i as int);
        }
        let pad = w - klen;
        let mut p: usize = 0;
        while p < pad
            invariant
                p <= pad,
                out@ == base + display_key(k) + spaces(p as nat),
            decreases pad - p,
        {
            out.push(' ');
            proof {
                assert(out@ =~= base + display_key(k) + spaces(p as nat + 1));
            }
            p = p + 1;
        }
        out.append("  =>  ");
        out.append(all[i].1.path.as_str());
        out.append("\n");
        proof {
            assert(dirmarks@.take(i as int + 1).drop_last() =~= dirmarks@.take(i as int));
            assert(dirmarks@.take(i as int + 1).last() == dirmarks@[i as int]);
            assert(out@ =~= base + line_of(dirmarks@[i as int], w as nat));
            assert(out@ =~= listing(dirmarks@.take(i as int + 1), w as nat));
        }
        i = i + 1;
    }
    proof {
        assert(dirmarks@.take(n as int) =~= dirmarks@);
    }
    out
}

} // verus!
