use vstd::prelude::*;
use vstd::string::*;
use crate::month::{month_label, month_to_string};
use crate::text::{
    append, append_str, ascii_lower, chars_of, int_text, int_text_of, is_digit, lemma_digit_lower,
    lemma_padded_digits, lemma_padded_injective, padded, padded_int, padded_int_of, padded_of,
    same_name, same_name_of, text_of,
};

verus! {

/// The first year of the month index.
pub const EPOCH_YEAR: i64 = 2016;

/// Subtracted from the month count, so that February of the first year has index 0.
pub const MONTH_OFFSET: i64 = 2;

pub open spec fn is_jpeg(e: Seq<char>) -> bool {
    &&& e.len() == 4
    &&& (e[0] == 'j' || e[0] == 'J')
    &&& (e[1] == 'p' || e[1] == 'P')
    &&& (e[2] == 'e' || e[2] == 'E')
    &&& (e[3] == 'g' || e[3] == 'G')
}

/// The extension a sorted file gets, with its dot: none stays none, and
/// `jpeg` in any case becomes `.jpg`.
pub open spec fn normalized_extension(e: Seq<char>) -> Seq<char> {
    if e.len() == 0 {
        e
    } else if is_jpeg(e) {
        seq!['.', 'j', 'p', 'g']
    } else {
        seq!['.'] + e
    }
}

/// The sequential index of a month, increasing across years.
pub open spec fn month_index(year: int, month: int) -> int {
    (year - EPOCH_YEAR) * 12 + month - MONTH_OFFSET
}

pub open spec fn is_separator(c: char) -> bool {
    c == '\\' || c == '/'
}

/// A path with a leading `.` directory taken off.
pub open spec fn strip_current(p: Seq<char>) -> Seq<char> {
    if p.len() >= 2 && p[0] == '.' && is_separator(p[1]) {
        p.subrange(2, p.len() as int)
    } else {
        p
    }
}

/// A path with each run of separators cut to its first separator, except at
/// the very start, where a doubled separator begins a network path.
pub open spec fn collapse_separators(p: Seq<char>) -> Seq<char>
    decreases p.len(),
{
    if p.len() == 0 {
        p
    } else {
        let r = collapse_separators(p.drop_last());
        if is_separator(p.last()) && r.len() > 1 && is_separator(r.last()) {
            r
        } else {
            r.push(p.last())
        }
    }
}

pub open spec fn jannik_prefix() -> Seq<char> {
    seq!['\\', 'J', 'a', 'n', 'n', 'i', 'k', ' ']
}

/// `<base>\Jannik <year>\Jannik <index> <label> <year>\`, the index with three
/// digits, written without doubled separators.
pub open spec fn target_directory(base: Seq<char>, year: i32, month: u32) -> Seq<char> {
    collapse_separators(strip_current(
        base + jannik_prefix() + int_text(year as int) + jannik_prefix() + padded_int(
            month_index(year as int, month as int),
            3,
        ) + seq![' '] + month_label(month) + seq![' '] + int_text(year as int) + seq!['\\'],
    ))
}

/// `<timestamp>-<suffix>.<extension>`, the suffix with three digits.
pub open spec fn candidate_name(date_time: Seq<char>, n: nat, extension: Seq<char>) -> Seq<char> {
    date_time + seq!['-'] + padded(n, 3) + extension
}

/// Two paths name the same file: they agree character by character, either
/// slash standing for the separator.
pub open spec fn same_path(a: Seq<char>, b: Seq<char>) -> bool {
    &&& a.len() == b.len()
    &&& forall|i: int|
        0 <= i < a.len() ==> (#[trigger] a[i] == b[i] || (is_separator(a[i]) && is_separator(
            b[i],
        )))
}

pub open spec fn names_view(v: Seq<String>) -> Seq<Seq<char>> {
    Seq::new(v.len(), |i: int| v[i]@)
}

/// A name is taken when the directory holds it in any ASCII case: a file
/// system that ignores case would otherwise overwrite that entry.
pub open spec fn taken(occupied: Seq<Seq<char>>, name: Seq<char>) -> bool {
    exists|i: int| 0 <= i < occupied.len() && same_name(#[trigger] occupied[i], name)
}

/// Candidate `n` ends the search: it is the file itself, or it is free.
pub open spec fn stops(
    source: Seq<char>,
    dir: Seq<char>,
    date_time: Seq<char>,
    extension: Seq<char>,
    occupied: Seq<Seq<char>>,
    n: nat,
) -> bool {
    same_path(dir + candidate_name(date_time, n, extension), source) || !taken(
        occupied,
        candidate_name(date_time, n, extension),
    )
}

/// The first suffix from `n` on, up to the number of occupied names, at which
/// the search ends.
pub open spec fn search(
    source: Seq<char>,
    dir: Seq<char>,
    date_time: Seq<char>,
    extension: Seq<char>,
    occupied: Seq<Seq<char>>,
    n: nat,
) -> Option<nat>
    decreases occupied.len() - n,
{
    if stops(source, dir, date_time, extension, occupied, n) {
        Some(n)
    } else if n >= occupied.len() {
        None
    } else {
        search(source, dir, date_time, extension, occupied, n + 1)
    }
}

/// Where a file goes, given the names in its target directory: nothing when
/// it already stands there.
pub open spec fn placement_of(
    source: Seq<char>,
    dir: Seq<char>,
    date_time: Seq<char>,
    extension: Seq<char>,
    occupied: Seq<Seq<char>>,
) -> Option<Seq<char>> {
    let k = search(source, dir, date_time, extension, occupied, 0)->0;
    if same_path(dir + candidate_name(date_time, k, extension), source) {
        None
    } else {
        Some(dir + candidate_name(date_time, k, extension))
    }
}

/// The file name of the sorting program itself, which is never sorted.
pub open spec fn executable_name() -> Seq<char> {
    "pixort.exe"@
}

/// Whether a file name is the sorting program's own, in any ASCII case.
pub fn is_executable_name(name: &str) -> (r: bool)
    ensures
        r == same_name(name@, executable_name()),
{
    same_name_of(&chars_of(name), &chars_of("pixort.exe"))
}

/// The extension with which a file is sorted.
pub fn normalize_extension(extension: &str) -> (r: String)
    ensures
        r@ == normalized_extension(extension@),
{
    let e = chars_of(extension);
    if e.len() == 0 {
        return text_of(&e);
    }
    let jpeg = e.len() == 4 && (e[0] == 'j' || e[0] == 'J') && (e[1] == 'p' || e[1] == 'P') && (
    e[2] == 'e' || e[2] == 'E') && (e[3] == 'g' || e[3] == 'G');
    let mut r: Vec<char> = Vec::new();
    r.push('.');
    if jpeg {
        r.push('j');
        r.push('p');
        r.push('g');
        assert(r@ =~= seq!['.', 'j', 'p', 'g']);
    } else {
        append(&mut r, &e);
    }
    text_of(&r)
}

fn push_jannik(r: &mut Vec<char>)
    ensures
        final(r)@ == old(r)@ + jannik_prefix(),
{
    let ghost start = r@;
    r.push('\\');
    r.push('J');
    r.push('a');
    r.push('n');
    r.push('n');
    r.push('i');
    r.push('k');
    r.push(' ');
    assert(r@ =~= start + jannik_prefix());
}

fn strip_current_of(p: Vec<char>) -> (r: Vec<char>)
    ensures
        r@ == strip_current(p@),
{
    if p.len() >= 2 && p[0] == '.' && (p[1] == '\\' || p[1] == '/') {
        let mut r: Vec<char> = Vec::new();
        let mut i: usize = 2;
        while i < p.len()
            invariant
                2 <= i <= p@.len(),
                r@ == p@.subrange(2, i as int),
            decreases p@.len() - i,
        {
            r.push(p[i]);
            i += 1;
        }
        r
    } else {
        p
    }
}

fn collapse_separators_of(p: &Vec<char>) -> (r: Vec<char>)
    ensures
        r@ == collapse_separators(p@),
{
    let mut r: Vec<char> = Vec::new();
    let mut i: usize = 0;
    while i < p.len()
        invariant
            i <= p@.len(),
            r@ == collapse_separators(p@.subrange(0, i as int)),
        decreases p@.len() - i,
    {
        let c = p[i];
        assert(p@.subrange(0, i + 1).drop_last() =~= p@.subrange(0, i as int));
        let sep = c == '\\' || c == '/';
        let n = r.len();
        if sep && n > 1 && (r[n - 1] == '\\' || r[n - 1] == '/') {
        } else {
            r.push(c);
        }
        i += 1;
    }
    assert(p@.subrange(0, p@.len() as int) =~= p@);
    r
}

fn target_directory_of(base: &str, year: i32, month: u32) -> (r: Vec<char>)
    ensures
        r@ == target_directory(base@, year, month),
{
    let index: i64 = (year as i64 - EPOCH_YEAR) * 12 + month as i64 - MONTH_OFFSET;
    let year_text = int_text_of(year as i64);
    let label = month_to_string(month);
    let mut r = chars_of(base);
    push_jannik(&mut r);
    append(&mut r, &year_text);
    push_jannik(&mut r);
    append(&mut r, &padded_int_of(index, 3));
    r.push(' ');
    append_str(&mut r, label.as_str());
    r.push(' ');
    append(&mut r, &year_text);
    r.push('\\');
    let ghost whole = base@ + jannik_prefix() + int_text(year as int) + jannik_prefix() + padded_int(
        month_index(year as int, month as int),
        3,
    ) + seq![' '] + month_label(month) + seq![' '] + int_text(year as int) + seq!['\\'];
    assert(r@ =~= whole);
    let stripped = strip_current_of(r);
    assert(stripped@ == strip_current(whole));
    collapse_separators_of(&stripped)
}

/// The directory into which files of the given year and month are sorted.
pub fn target_directory_path(base: &str, year: i32, month: u32) -> (r: String)
    ensures
        r@ == target_directory(base@, year, month),
{
    text_of(&target_directory_of(base, year, month))
}

fn candidate_name_of(date_time: &Vec<char>, n: u64, extension: &Vec<char>) -> (r: Vec<char>)
    ensures
        r@ == candidate_name(date_time@, n as nat, extension@),
{
    let mut r: Vec<char> = Vec::new();
    append(&mut r, date_time);
    r.push('-');
    append(&mut r, &padded_of(n, 3));
    append(&mut r, extension);
    assert(r@ =~= candidate_name(date_time@, n as nat, extension@));
    r
}

fn same_path_of(a: &Vec<char>, b: &Vec<char>) -> (r: bool)
    ensures
        r == same_path(a@, b@),
{
    if a.len() != b.len() {
        return false;
    }
    let mut i: usize = 0;
    while i < a.len()
        invariant
            a@.len() == b@.len(),
            i <= a@.len(),
            forall|j: int|
                0 <= j < i ==> (#[trigger] a@[j] == b@[j] || (is_separator(a@[j])
                    && is_separator(b@[j]))),
        decreases a@.len() - i,
    {
        let x = a[i];
        let y = b[i];
        if x != y && !((x == '\\' || x == '/') && (y == '\\' || y == '/')) {
            assert(!(a@[i as int] == b@[i as int] || (is_separator(a@[i as int]) && is_separator(
                b@[i as int],
            ))));
            return false;
        }
        i += 1;
    }
    true
}

fn name_taken(names: &Vec<Vec<char>>, name: &Vec<char>, view: Ghost<Seq<Seq<char>>>) -> (r:
    bool)
    requires
        view@.len() == names@.len(),
        forall|i: int| 0 <= i < names@.len() ==> #[trigger] view@[i] == names@[i]@,
    ensures
        r == taken(view@, name@),
{
    let mut i: usize = 0;
    while i < names.len()
        invariant
            i <= names@.len(),
            view@.len() == names@.len(),
            forall|j: int| 0 <= j < names@.len() ==> #[trigger] view@[j] == names@[j]@,
            forall|j: int| 0 <= j < i ==> !same_name(#[trigger] view@[j], name@),
        decreases names@.len() - i,
    {
        if same_name_of(&names[i], name) {
            assert(same_name(view@[i as int], name@));
            return true;
        }
        i += 1;
    }
    false
}

/// Looks for the first free name `<date_time>-<suffix><extension>` in the
/// target directory for the given year and month, trying suffixes from 0 up.
/// `occupied` holds the names of the entries in that directory; a name counts
/// as taken when an entry matches it in any ASCII case. The search
/// ends at the first suffix whose path is `source_path` itself (the file is
/// already placed: nothing is returned) or whose name is free (the file
/// moves to the path returned). One of the first `occupied.len() + 1`
/// suffixes always ends it.
pub fn find_unused_target_file_path(
    source_path: &str,
    target_path: &str,
    year: i32,
    month: u32,
    date_time: &str,
    extension: &str,
    occupied: &Vec<String>,
) -> (r: Option<String>)
    ensures
        ({
            let dir = target_directory(target_path@, year, month);
            match placement_of(source_path@, dir, date_time@, extension@, names_view(occupied@)) {
                None => r is None,
                Some(p) => r matches Some(q) && q@ == p,
            }
        }),
{
    let ghost occ = names_view(occupied@);
    let dir = target_directory_of(target_path, year, month);
    let source = chars_of(source_path);
    let dt = chars_of(date_time);
    let ext = chars_of(extension);
    let mut names: Vec<Vec<char>> = Vec::new();
    let mut i: usize = 0;
    while i < occupied.len()
        invariant
            i <= occupied@.len(),
            occ == names_view(occupied@),
            names@.len() == i,
            forall|j: int| 0 <= j < i ==> #[trigger] names@[j]@ == occ[j],
        decreases occupied@.len() - i,
    {
        names.push(chars_of(occupied[i].as_str()));
        i += 1;
    }
    let ghost d = dir@;
    let mut n: usize = 0;
    loop
        invariant
            n <= names@.len(),
            names@.len() == occ.len(),
            forall|j: int| 0 <= j < names@.len() ==> #[trigger] occ[j] == names@[j]@,
            d == dir@,
            d == target_directory(target_path@, year, month),
            occ == names_view(occupied@),
            source@ == source_path@,
            dt@ == date_time@,
            ext@ == extension@,
            search(source@, d, dt@, ext@, occ, 0) == search(source@, d, dt@, ext@, occ, n as nat),
        decreases names@.len() - n,
    {
        let name = candidate_name_of(&dt, n as u64, &ext);
        let mut path = dir.clone();
        assert(path@ == dir@);
        append(&mut path, &name);
        assert(path@ == d + candidate_name(dt@, n as nat, ext@));
        if same_path_of(&path, &source) {
            assert(search(source@, d, dt@, ext@, occ, n as nat) == Some(n as nat));
            return None;
        }
        if !name_taken(&names, &name, Ghost(occ)) {
            assert(search(source@, d, dt@, ext@, occ, n as nat) == Some(n as nat));
            return Some(text_of(&path));
        }
        if n == names.len() {
            // Not reached: one of these suffixes is always free.
            proof {
                assert(search(source@, d, dt@, ext@, occ, n as nat) is None);
                lemma_search_ends(source@, d, dt@, ext@, occ);
            }
            return None;
        }
        n += 1;
    }
}

/// The occupied names after the first `count` of the files at `sources` have
/// been placed, in that order, under one timestamp and extension.
pub open spec fn fill(
    sources: Seq<Seq<char>>,
    dir: Seq<char>,
    date_time: Seq<char>,
    extension: Seq<char>,
    occupied: Seq<Seq<char>>,
    count: nat,
) -> Seq<Seq<char>>
    decreases count,
{
    if count == 0 {
        occupied
    } else {
        let o = fill(sources, dir, date_time, extension, occupied, (count - 1) as nat);
        let source = sources[count - 1];
        match search(source, dir, date_time, extension, o, 0) {
            Some(k) => if same_path(dir + candidate_name(date_time, k, extension), source) {
                o
            } else {
                o.push(candidate_name(date_time, k, extension))
            },
            None => o,
        }
    }
}

proof fn lemma_search_reaches(
    source: Seq<char>,
    dir: Seq<char>,
    date_time: Seq<char>,
    extension: Seq<char>,
    occupied: Seq<Seq<char>>,
    n: nat,
    k: nat,
)
    requires
        n <= k <= occupied.len(),
        forall|m: nat| n <= m < k ==> !#[trigger] stops(source, dir, date_time, extension, occupied, m),
        stops(source, dir, date_time, extension, occupied, k),
    ensures
        search(source, dir, date_time, extension, occupied, n) == Some(k),
    decreases k - n,
{
    if n < k {
        assert(!stops(source, dir, date_time, extension, occupied, n));
        lemma_search_reaches(source, dir, date_time, extension, occupied, n + 1, k);
    }
}

proof fn lemma_search_found(
    source: Seq<char>,
    dir: Seq<char>,
    date_time: Seq<char>,
    extension: Seq<char>,
    occupied: Seq<Seq<char>>,
    n: nat,
    k: nat,
)
    requires
        search(source, dir, date_time, extension, occupied, n) == Some(k),
    ensures
        n <= k,
        k <= occupied.len() || k == n,
        forall|m: nat| n <= m < k ==> !#[trigger] stops(source, dir, date_time, extension, occupied, m),
        stops(source, dir, date_time, extension, occupied, k),
    decreases occupied.len() - n,
{
    if !stops(source, dir, date_time, extension, occupied, n) && n < occupied.len() {
        lemma_search_found(source, dir, date_time, extension, occupied, n + 1, k);
    }
}

proof fn lemma_candidate_injective(date_time: Seq<char>, extension: Seq<char>, m: nat, k: nat)
    requires
        same_name(candidate_name(date_time, m, extension), candidate_name(date_time, k, extension)),
    ensures
        m == k,
{
    let a = candidate_name(date_time, m, extension);
    let b = candidate_name(date_time, k, extension);
    let s: int = date_time.len() as int + 1;
    let pm = padded(m, 3);
    let pk = padded(k, 3);
    lemma_padded_digits(m, 3);
    lemma_padded_digits(k, 3);
    assert(pm.len() == pk.len());
    assert forall|i: int| 0 <= i < pm.len() implies pm[i] == pk[i] by {
        assert(a[s + i] == pm[i]);
        assert(b[s + i] == pk[i]);
        assert(ascii_lower(a[s + i]) == ascii_lower(b[s + i]));
        lemma_digit_lower(pm[i]);
        lemma_digit_lower(pk[i]);
    }
    assert(pm =~= pk);
    lemma_padded_injective(m, k, 3);
}

proof fn lemma_candidate_paths_distinct(
    dir: Seq<char>,
    date_time: Seq<char>,
    extension: Seq<char>,
    m: nat,
    k: nat,
)
    requires
        same_path(dir + candidate_name(date_time, m, extension), dir + candidate_name(date_time, k, extension)),
    ensures
        m == k,
{
    let a = dir + candidate_name(date_time, m, extension);
    let b = dir + candidate_name(date_time, k, extension);
    let s: int = dir.len() as int + date_time.len() as int + 1;
    let pm = padded(m, 3);
    let pk = padded(k, 3);
    lemma_padded_digits(m, 3);
    lemma_padded_digits(k, 3);
    assert(pm.len() == pk.len());
    assert forall|i: int| 0 <= i < pm.len() implies pm[i] == pk[i] by {
        assert(a[s + i] == pm[i]);
        assert(b[s + i] == pk[i]);
        assert(is_digit(pm[i]) && is_digit(pk[i]));
    }
    assert(pm =~= pk);
    lemma_padded_injective(m, k, 3);
}

/// Names for `k` different suffixes take at least `k` entries.
proof fn lemma_names_need_room(
    date_time: Seq<char>,
    extension: Seq<char>,
    occupied: Seq<Seq<char>>,
    k: nat,
)
    requires
        forall|m: nat| m < k ==> taken(occupied, #[trigger] candidate_name(date_time, m, extension)),
    ensures
        k <= occupied.len(),
    decreases k,
{
    if k > 0 {
        let c = (k - 1) as nat;
        let last = candidate_name(date_time, c, extension);
        assert(taken(occupied, last));
        let j = choose|j: int| 0 <= j < occupied.len() && same_name(occupied[j], last);
        let rest = occupied.remove(j);
        assert forall|m: nat| m < c implies taken(
            rest,
            #[trigger] candidate_name(date_time, m, extension),
        ) by {
            let name = candidate_name(date_time, m, extension);
            assert(taken(occupied, name));
            let i = choose|i: int| 0 <= i < occupied.len() && same_name(occupied[i], name);
            if i == j {
                assert(same_name(name, last)) by {
                    assert forall|p: int| 0 <= p < name.len() implies #[trigger] ascii_lower(name[p])
                        == ascii_lower(last[p]) by {
                        assert(ascii_lower(occupied[j][p]) == ascii_lower(name[p]));
                        assert(ascii_lower(occupied[j][p]) == ascii_lower(last[p]));
                    }
                }
                lemma_candidate_injective(date_time, extension, m, c);
            } else if i < j {
                assert(rest[i] == occupied[i]);
            } else {
                assert(rest[i - 1] == occupied[i]);
            }
        }
        lemma_names_need_room(date_time, extension, rest, c);
    }
}

/// The search always ends: among one more suffix than there are occupied
/// names, one is free.
pub proof fn lemma_search_ends(
    source: Seq<char>,
    dir: Seq<char>,
    date_time: Seq<char>,
    extension: Seq<char>,
    occupied: Seq<Seq<char>>,
)
    ensures
        search(source, dir, date_time, extension, occupied, 0) is Some,
{
    if search(source, dir, date_time, extension, occupied, 0) is None {
        lemma_search_none(source, dir, date_time, extension, occupied, 0);
        assert forall|m: nat| m < occupied.len() + 1 implies taken(
            occupied,
            #[trigger] candidate_name(date_time, m, extension),
        ) by {
            assert(!stops(source, dir, date_time, extension, occupied, m));
        }
        lemma_names_need_room(date_time, extension, occupied, occupied.len() + 1);
    }
}

proof fn lemma_search_none(
    source: Seq<char>,
    dir: Seq<char>,
    date_time: Seq<char>,
    extension: Seq<char>,
    occupied: Seq<Seq<char>>,
    n: nat,
)
    requires
        search(source, dir, date_time, extension, occupied, n) is None,
    ensures
        forall|m: nat| n <= m <= occupied.len() ==> !#[trigger] stops(source, dir, date_time, extension, occupied, m),
    decreases occupied.len() - n,
{
    if n < occupied.len() {
        lemma_search_none(source, dir, date_time, extension, occupied, n + 1);
    }
}

/// Files from outside a directory that holds none of their names, resolving
/// to that directory, one timestamp and one extension, and placed one after
/// another, take the suffixes 0, 1, 2, ... in turn: after `count` of them the
/// directory holds exactly the names with suffixes below `count`, each once,
/// whichever files they are.
pub proof fn lemma_collisions_fill_suffixes(
    sources: Seq<Seq<char>>,
    dir: Seq<char>,
    date_time: Seq<char>,
    extension: Seq<char>,
    occupied: Seq<Seq<char>>,
    count: nat,
)
    requires
        count <= sources.len(),
        forall|n: nat| !taken(occupied, #[trigger] candidate_name(date_time, n, extension)),
        forall|i: int, n: nat|
            0 <= i < sources.len() ==> !same_path(
                dir + #[trigger] candidate_name(date_time, n, extension),
                #[trigger] sources[i],
            ),
    ensures
        fill(sources, dir, date_time, extension, occupied, count) =~= occupied + Seq::new(
            count,
            |m: int| candidate_name(date_time, m as nat, extension),
        ),
    decreases count,
{
    if count > 0 {
        let c = (count - 1) as nat;
        let source = sources[c as int];
        lemma_collisions_fill_suffixes(sources, dir, date_time, extension, occupied, c);
        let names = Seq::new(c, |m: int| candidate_name(date_time, m as nat, extension));
        let o = occupied + names;
        assert(fill(sources, dir, date_time, extension, occupied, c) == o);
        assert forall|m: nat| 0 <= m < c implies !#[trigger] stops(
            source,
            dir,
            date_time,
            extension,
            o,
            m,
        ) by {
            assert(o[occupied.len() + m as int] == candidate_name(date_time, m, extension));
            assert(same_name(o[occupied.len() + m as int], candidate_name(date_time, m, extension)));
            assert(!same_path(dir + candidate_name(date_time, m, extension), source));
        }
        let last = candidate_name(date_time, c, extension);
        assert(!taken(o, last)) by {
            if taken(o, last) {
                let j = choose|j: int| 0 <= j < o.len() && same_name(o[j], last);
                if j < occupied.len() {
                    assert(occupied[j] == o[j]);
                    assert(taken(occupied, last));
                } else {
                    assert(o[j] == candidate_name(date_time, (j - occupied.len()) as nat, extension));
                    lemma_candidate_injective(date_time, extension, (j - occupied.len()) as nat, c);
                }
            }
        }
        lemma_search_reaches(source, dir, date_time, extension, o, 0, c);
        assert(!same_path(dir + candidate_name(date_time, c, extension), source));
        assert(o.push(last) =~= occupied + Seq::new(
            count,
            |m: int| candidate_name(date_time, m as nat, extension),
        ));
    }
}

/// The order in which such files are placed leaves no trace in the names
/// that the directory ends up with.
pub proof fn lemma_collisions_order_independent(
    sources: Seq<Seq<char>>,
    reordered: Seq<Seq<char>>,
    dir: Seq<char>,
    date_time: Seq<char>,
    extension: Seq<char>,
    occupied: Seq<Seq<char>>,
)
    requires
        reordered.len() == sources.len(),
        forall|i: int| 0 <= i < sources.len() ==> reordered.contains(#[trigger] sources[i]),
        forall|n: nat| !taken(occupied, #[trigger] candidate_name(date_time, n, extension)),
        forall|i: int, n: nat|
            0 <= i < sources.len() ==> !same_path(
                dir + #[trigger] candidate_name(date_time, n, extension),
                #[trigger] sources[i],
            ),
        forall|i: int, n: nat|
            0 <= i < reordered.len() ==> !same_path(
                dir + #[trigger] candidate_name(date_time, n, extension),
                #[trigger] reordered[i],
            ),
    ensures
        fill(sources, dir, date_time, extension, occupied, sources.len()) == fill(
            reordered,
            dir,
            date_time,
            extension,
            occupied,
            reordered.len(),
        ),
{
    lemma_collisions_fill_suffixes(sources, dir, date_time, extension, occupied, sources.len());
    lemma_collisions_fill_suffixes(reordered, dir, date_time, extension, occupied, reordered.len());
}

/// A file moved to the path that the search gave is found in place by the
/// next search, so a second run moves nothing.
pub proof fn lemma_placed_file_stays(
    source: Seq<char>,
    dir: Seq<char>,
    date_time: Seq<char>,
    extension: Seq<char>,
    occupied: Seq<Seq<char>>,
    k: nat,
)
    requires
        search(source, dir, date_time, extension, occupied, 0) == Some(k),
        !same_path(dir + candidate_name(date_time, k, extension), source),
    ensures
        placement_of(
            dir + candidate_name(date_time, k, extension),
            dir,
            date_time,
            extension,
            occupied.push(candidate_name(date_time, k, extension)),
        ) is None,
{
    let placed = dir + candidate_name(date_time, k, extension);
    let o2 = occupied.push(candidate_name(date_time, k, extension));
    lemma_search_found(source, dir, date_time, extension, occupied, 0, k);
    assert forall|m: nat| 0 <= m < k implies !#[trigger] stops(
        placed,
        dir,
        date_time,
        extension,
        o2,
        m,
    ) by {
        assert(!stops(source, dir, date_time, extension, occupied, m));
        let j = choose|j: int|
            0 <= j < occupied.len() && same_name(occupied[j], candidate_name(date_time, m, extension));
        assert(o2[j] == occupied[j]);
        if same_path(dir + candidate_name(date_time, m, extension), placed) {
            lemma_candidate_paths_distinct(dir, date_time, extension, m, k);
        }
    }
    assert(same_path(placed, placed));
    lemma_search_reaches(placed, dir, date_time, extension, o2, 0, k);
}

} // verus!
