//! The naming convention: a stored environment lives at
//! `<base>/<name>.env`, and a file name yields an environment name
//! exactly when it carries that suffix.

use vstd::prelude::*;

verus! {

/// The file-name suffix that marks a stored environment file.
pub open spec fn env_suffix() -> Seq<char> {
    seq!['.', 'e', 'n', 'v']
}

/// Whether the file name `f` ends in the environment suffix.
pub open spec fn has_env_suffix(f: Seq<char>) -> bool {
    f.len() >= 4 && f.subrange(f.len() - 4, f.len() as int) == env_suffix()
}

/// The environment name a file name stands for: the trailing suffix
/// stripped once, if and only if it is there.
pub open spec fn env_name_of(f: Seq<char>) -> Option<Seq<char>> {
    if has_env_suffix(f) {
        Some(f.subrange(0, f.len() - 4))
    } else {
        None
    }
}

/// The file name a stored environment is kept under.
pub open spec fn env_file_name(name: Seq<char>) -> Seq<char> {
    name + env_suffix()
}

/// The full path of a stored environment: `base/<name>.env`.
pub open spec fn env_path(base: Seq<char>, name: Seq<char>) -> Seq<char> {
    base + seq!['/'] + env_file_name(name)
}

/// Build the path a named environment is stored at under `base`. The
/// name is taken as given: keeping path separators out of it is the
/// caller's responsibility.
pub fn name_to_path(base: &str, name: &str) -> (r: String)
    ensures
        r@ == env_path(base@, name@),
{
    let mut out = String::from_str(base);
    out.append("/");
    out.append(name);
    out.append(".env");
    proof {
        reveal_strlit("/");
        reveal_strlit(".env");
        assert(("/")@ =~= seq!['/']);
        assert((".env")@ =~= env_suffix());
        assert(out@ =~= env_path(base@, name@));
    }
    out
}

/// The name an environment file stands for, or nothing when the file
/// name does not end in the environment suffix.
pub fn file_name_to_env_name(file_name: &str) -> (r: Option<String>)
    ensures
        match r {
            Some(name) => env_name_of(file_name@) == Some(name@),
            None => env_name_of(file_name@) is None,
        },
{
    let n = file_name.unicode_len();
    if n < 4 {
        return None;
    }
    let ghost f = file_name@;
    let ghost tail = f.subrange(f.len() - 4, f.len() as int);
    proof {
        assert(tail.len() == 4);
        assert(tail[0] == f[f.len() - 4]);
        assert(tail[1] == f[f.len() - 3]);
        assert(tail[2] == f[f.len() - 2]);
        assert(tail[3] == f[f.len() - 1]);
    }
    if file_name.get_char(n - 4) == '.' && file_name.get_char(n - 3) == 'e'
        && file_name.get_char(n - 2) == 'n' && file_name.get_char(n - 1) == 'v' {
        proof {
            assert(tail =~= env_suffix());
        }
        Some(String::from_str(file_name.substring_char(0, n - 4)))
    } else {
        proof {
            assert(tail != env_suffix());
        }
        None
    }
}

/// The environment names among a directory's file names, in the order
/// given: names of files with the suffix, everything else dropped.
pub open spec fn env_names_list(files: Seq<Seq<char>>) -> Seq<Seq<char>>
    decreases files.len(),
{
    if files.len() == 0 {
        Seq::empty()
    } else {
        env_names_list(files.drop_last()) + match env_name_of(files.last()) {
            Some(nm) => seq![nm],
            None => Seq::<Seq<char>>::empty(),
        }
    }
}

/// The installed environments a directory listing shows: each file name
/// with the suffix contributes its name, every other file is excluded.
pub fn get_envs_list(file_names: &Vec<String>) -> (r: Vec<String>)
    ensures
        r.deep_view() == env_names_list(file_names.deep_view()),
{
    let ghost files = file_names.deep_view();
    let mut out: Vec<String> = Vec::new();
    let n = file_names.len();
    let mut i: usize = 0;
    proof {
        assert(files.take(0) =~= Seq::<Seq<char>>::empty());
        assert(out.deep_view() =~= Seq::<Seq<char>>::empty());
    }
    while i < n
        invariant
            n == file_names.len(),
            files == file_names.deep_view(),
            i <= n,
            out.deep_view() == env_names_list(files.take(i as int)),
        decreases n - i,
    {
        let ghost prev = out.deep_view();
        match file_name_to_env_name(file_names[i].as_str()) {
            Some(nm) => {
                let ghost nv = nm@;
                out.push(nm);
                proof {
                    assert(out.deep_view() =~= prev.push(nv));
                }
            },
            None => {},
        }
        proof {
            assert(files.take(i + 1).drop_last() =~= files.take(i as int));
            assert(files.take(i + 1).last() == files[i as int]);
            assert(files[i as int] == file_names@[i as int]@);
            match env_name_of(files[i as int]) {
                Some(nm) => {
                    assert(out.deep_view() =~= prev + seq![nm]);
                },
                None => {
                    assert(out.deep_view() =~= prev + Seq::<Seq<char>>::empty());
                },
            }
        }
        i += 1;
    }
    proof {
        assert(files.take(n as int) =~= files);
    }
    out
}

/// Name mapping round trip: the file name built for `name` strips back
/// to exactly `name`, whatever `name` holds.
pub proof fn lemma_name_round_trip(name: Seq<char>)
    ensures
        env_name_of(env_file_name(name)) == Some(name),
{
    let f = env_file_name(name);
    assert(f.subrange(f.len() - 4, f.len() as int) =~= env_suffix());
    assert(f.subrange(0, f.len() - 4) =~= name);
}

} // verus!
