use vstd::prelude::*;
use vstd::string::{StrSliceExecFns, StringExecFns};

use crate::error::Error;
use crate::range::{
    BidirectionalRange, range_error, range_ok, ranges_view, resolve_ranges, resolves_to,
};
use crate::text::{joined, push_char, push_decimal, decimal};

verus! {

/// One named file of a paste.
#[derive(Debug)]
pub struct PasteFile {
    pub name: String,
    pub content: String,
}

/// What a backend returns for a content identifier: one file or several,
/// as the backend reports, not as the caller asked.
#[derive(Debug)]
pub enum Paste {
    Single(PasteFile),
    Multiple(Vec<PasteFile>),
}

impl View for PasteFile {
    type V = (Seq<char>, Seq<char>);

    open spec fn view(&self) -> (Seq<char>, Seq<char>) {
        (self.name@, self.content@)
    }
}

pub open spec fn files_view(v: Seq<PasteFile>) -> Seq<(Seq<char>, Seq<char>)> {
    v.map_values(|f: PasteFile| f@)
}

impl PasteFile {
    pub fn new(name: String, content: String) -> (r: PasteFile)
        ensures
            r.name == name,
            r.content == content,
    {
        PasteFile { name, content }
    }

    pub fn copy(&self) -> (r: PasteFile)
        ensures
            r@ == self@,
    {
        PasteFile { name: self.name.clone(), content: self.content.clone() }
    }
}

/// The files of `files` at `indices`, in the order of `indices`.
pub fn pick_files(files: &Vec<PasteFile>, indices: &Vec<usize>) -> (r: Vec<PasteFile>)
    requires
        forall|j: int| 0 <= j < indices@.len() ==> indices@[j] < files@.len(),
    ensures
        r@.len() == indices@.len(),
        forall|j: int| 0 <= j < indices@.len() ==> (#[trigger] r@[j])@ == files@[indices@[j] as int]@,
{
    let mut out: Vec<PasteFile> = Vec::new();
    let mut j: usize = 0;
    while j < indices.len()
        invariant
            j <= indices@.len(),
            forall|q: int| 0 <= q < indices@.len() ==> indices@[q] < files@.len(),
            out@.len() == j,
            forall|q: int| 0 <= q < j ==> (#[trigger] out@[q])@ == files@[indices@[q] as int]@,
        decreases indices@.len() - j,
    {
        out.push(files[indices[j]].copy());
        j = j + 1;
    }
    out
}

/// Narrows the files of a multi-file paste to those a range selector picks:
/// each picked file once, in ascending index order.
pub fn select_files(files: &Vec<PasteFile>, ranges: &Vec<BidirectionalRange>) -> (r: Result<
    Vec<PasteFile>,
    Error,
>)
    ensures
        r matches Ok(v) ==> exists|idx: Seq<usize>|
            resolves_to(ranges_view(ranges@), files@.len() as int, idx) && idx.len() == v@.len()
                && forall|j: int|
                0 <= j < idx.len() ==> (#[trigger] v@[j])@ == files@[idx[j] as int]@,
        (forall|k: int|
            0 <= k < ranges@.len() ==> crate::range::range_ok(
                #[trigger] ranges@[k]@,
                files@.len() as int,
            )) <==> r is Ok,
        r matches Err(e) ==> exists|k: int|
            0 <= k < ranges@.len() && !range_ok(#[trigger] ranges@[k]@, files@.len() as int) && e
                == range_error(ranges@[k]@, files@.len() as int) && forall|m: int|
                0 <= m < k ==> range_ok(#[trigger] ranges@[m]@, files@.len() as int),
{
    let indices = match resolve_ranges(ranges, files.len()) {
        Ok(v) => v,
        Err(e) => {
            return Err(e);
        },
    };
    let out = pick_files(files, &indices);
    assert(resolves_to(ranges_view(ranges@), files@.len() as int, indices@));
    Ok(out)
}

pub open spec fn section(f: (Seq<char>, Seq<char>)) -> Seq<char> {
    "==> "@ + f.0 + " <==\n\n"@ + f.1
}

/// The text output of a paste: the content of a single file; for several,
/// each under a `==> name <==` header, separated by newlines.
pub open spec fn paste_text(p: Paste) -> Seq<char> {
    match p {
        Paste::Single(f) => f.content@,
        Paste::Multiple(fs) => joined(files_view(fs@).map_values(|f| section(f)), seq!['\n']),
    }
}

/// Formats a paste for standard output.
pub fn format_paste(p: &Paste) -> (r: String)
    ensures
        r@ == paste_text(*p),
{
    match p {
        Paste::Single(f) => f.content.clone(),
        Paste::Multiple(fs) => {
            let ghost secs = files_view(fs@).map_values(|f| section(f));
            let mut out = String::new();
            let mut i: usize = 0;
            while i < fs.len()
                invariant
                    i <= fs@.len(),
                    secs == files_view(fs@).map_values(|f| section(f)),
                    secs.len() == fs@.len(),
                    out@ == joined(secs.subrange(0, i as int), seq!['\n']),
                decreases fs@.len() - i,
            {
                let ghost prev = secs.subrange(0, i as int);
                let ghost next = secs.subrange(0, i + 1);
                assert(next.drop_last() =~= prev);
                let ghost before = out@;
                if i > 0 {
                    push_char(&mut out, '\n');
                }
                let ghost mid = out@;
                out.append("==> ");
                out.append(fs[i].name.as_str());
                out.append(" <==\n\n");
                out.append(fs[i].content.as_str());
                proof {
                    assert(secs[i as int] == section(fs@[i as int]@));
                    assert(out@ =~= mid + secs[i as int]);
                    if i == 0 {
                        assert(out@ =~= next[0]);
                    } else {
                        assert(out@ =~= joined(prev, seq!['\n']) + seq!['\n'] + next.last());
                    }
                }
                i = i + 1;
            }
            assert(secs.subrange(0, fs@.len() as int) =~= secs);
            out
        },
    }
}

/// Index of the last `.` in `s`.
pub open spec fn last_dot(s: Seq<char>) -> Option<int>
    decreases s.len(),
{
    if s.len() == 0 {
        None
    } else if s.last() == '.' {
        Some(s.len() - 1)
    } else {
        last_dot(s.drop_last())
    }
}

/// The name tried on the `tries`-th attempt to place a file: the name itself
/// first, then with `_` and the counter put before the final extension, or
/// at the end when there is none.
pub open spec fn candidate(name: Seq<char>, tries: nat) -> Seq<char> {
    if tries == 0 {
        name
    } else {
        match last_dot(name) {
            Some(k) => name.subrange(0, k) + seq!['_'] + decimal(tries) + name.subrange(
                k,
                name.len() as int,
            ),
            None => name + seq!['_'] + decimal(tries),
        }
    }
}

proof fn lemma_last_dot_bound(s: Seq<char>)
    ensures
        last_dot(s) matches Some(k) ==> 0 <= k < s.len(),
    decreases s.len(),
{
    if s.len() > 0 {
        lemma_last_dot_bound(s.drop_last());
    }
}

/// The file name to try on attempt `tries` when writing a downloaded file
/// whose name is taken: `a.txt`, `a_1.txt`, `a_2.txt`, ...; `name`, `name_1`, ...
pub fn candidate_name(name: &str, tries: u64) -> (r: String)
    ensures
        r@ == candidate(name@, tries as nat),
{
    let n = name.unicode_len();
    let mut dot: Option<usize> = None;
    let mut i: usize = 0;
    while i < n
        invariant
            n == name@.len(),
            i <= n,
            match dot {
                Some(k) => last_dot(name@.subrange(0, i as int)) == Some(k as int),
                None => last_dot(name@.subrange(0, i as int)) is None,
            },
        decreases n - i,
    {
        let ghost prev = name@.subrange(0, i as int);
        let ghost next = name@.subrange(0, i + 1);
        assert(next.drop_last() =~= prev);
        if name.get_char(i) == '.' {
            dot = Some(i);
        }
        i = i + 1;
    }
    assert(name@.subrange(0, n as int) =~= name@);
    proof {
        lemma_last_dot_bound(name@);
    }
    if tries == 0 {
        return name.to_owned();
    }
    let mut out = String::new();
    match dot {
        Some(k) => {
            out.append(name.substring_char(0, k));
            push_char(&mut out, '_');
            push_decimal(&mut out, tries);
            out.append(name.substring_char(k, n));
        },
        None => {
            out.append(name);
            push_char(&mut out, '_');
            push_decimal(&mut out, tries);
        },
    }
    assert(out@ =~= candidate(name@, tries as nat));
    out
}

/// The name shown for a file when listing a paste's files.
pub open spec fn shown_name(n: Option<Seq<char>>) -> Seq<char> {
    match n {
        Some(s) => s,
        None => "<unknown>"@,
    }
}

/// Lists the file names of a paste, one per line; a file whose name the
/// backend did not report shows as `<unknown>`.
pub fn file_list_text(names: &Vec<Option<String>>) -> (r: String)
    ensures
        r@ == joined(
            names@.map_values(|n: Option<String>| shown_name(crate::dispatch::opt_view(n))),
            seq!['\n'],
        ),
{
    let ghost shown = names@.map_values(|n: Option<String>| shown_name(crate::dispatch::opt_view(n)));
    let mut out = String::new();
    let mut i: usize = 0;
    while i < names.len()
        invariant
            i <= names@.len(),
            shown == names@.map_values(|n: Option<String>| shown_name(crate::dispatch::opt_view(n))),
            out@ == joined(shown.subrange(0, i as int), seq!['\n']),
        decreases names@.len() - i,
    {
        let ghost prev = shown.subrange(0, i as int);
        let ghost next = shown.subrange(0, i + 1);
        assert(next.drop_last() =~= prev);
        if i > 0 {
            push_char(&mut out, '\n');
        }
        let ghost mid = out@;
        match &names[i] {
            Some(n) => out.append(n.as_str()),
            None => out.append("<unknown>"),
        }
        proof {
            assert(out@ =~= mid + shown[i as int]);
            if i == 0 {
                assert(out@ =~= next[0]);
            } else {
                assert(out@ =~= joined(prev, seq!['\n']) + seq!['\n'] + next.last());
            }
        }
        i = i + 1;
    }
    assert(shown.subrange(0, names@.len() as int) =~= shown);
    out
}

} // verus!
