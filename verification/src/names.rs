use vstd::prelude::*;
use vstd::string::StrSliceExecFns;
use vstd::utf8::{decode_utf8, valid_utf8};

verus! {

/// Names what `String::from_utf8_lossy` makes of a byte sequence: the
/// characters of the bytes read as UTF-8, each invalid sequence replaced
/// by U+FFFD.
pub uninterp spec fn utf8_lossy(bytes: Seq<u8>) -> Seq<char>;

/// Calls `String::from_utf8_lossy`. Its result is named by `utf8_lossy`;
/// on valid UTF-8 it is the decoded text itself, as std's documentation
/// says. How invalid sequences are replaced is left to the name.
#[verifier::external_body]
fn decode_lossy(bytes: &[u8]) -> (s: String)
    ensures
        s@ == utf8_lossy(bytes@),
        valid_utf8(bytes@) ==> s@ == decode_utf8(bytes@),
{
    String::from_utf8_lossy(bytes).into_owned()
}

/// `s` without the NUL characters it starts with.
pub open spec fn strip_leading_nul(s: Seq<char>) -> Seq<char>
    decreases s.len(),
{
    if s.len() > 0 && s[0] == '\0' {
        strip_leading_nul(s.drop_first())
    } else {
        s
    }
}

/// `s` without the NUL characters it ends with.
pub open spec fn strip_trailing_nul(s: Seq<char>) -> Seq<char>
    decreases s.len(),
{
    if s.len() > 0 && s.last() == '\0' {
        strip_trailing_nul(s.drop_last())
    } else {
        s
    }
}

/// `s` without NUL characters at either end.
pub open spec fn trim_nul(s: Seq<char>) -> Seq<char> {
    strip_trailing_nul(strip_leading_nul(s))
}

/// The part of a path after its last backslash (the whole path if it has
/// none).
pub open spec fn after_last_separator(s: Seq<char>) -> Seq<char>
    decreases s.len(),
{
    if s.len() == 0 {
        s
    } else if s.last() == '\\' {
        Seq::empty()
    } else {
        after_last_separator(s.drop_last()).push(s.last())
    }
}

/// The path held in a NUL-padded file-name buffer.
pub open spec fn path_of(raw: Seq<u8>) -> Seq<char> {
    trim_nul(utf8_lossy(raw))
}

/// The file's own name, without its directories, in a NUL-padded
/// file-name buffer.
pub open spec fn short_name_of(raw: Seq<u8>) -> Seq<char> {
    after_last_separator(path_of(raw))
}

/// A buffer of valid UTF-8 reads as its own text: what `String::from_utf8_lossy`
/// gives for it is its decoding.
pub open spec fn reads_plainly(raw: Seq<u8>) -> bool {
    valid_utf8(raw) ==> utf8_lossy(raw) == decode_utf8(raw)
}

/// `reads_plainly` for a buffer that may be missing.
pub open spec fn opt_reads_plainly(o: Option<Seq<u8>>) -> bool {
    match o {
        Some(raw) => reads_plainly(raw),
        None => true,
    }
}

/// Reads a file-name buffer: whether the path in it is non-empty, and the
/// part of the path after its last backslash.
fn parse_file_name(raw: &Vec<u8>) -> (res: (bool, String))
    ensures
        res.0 == (path_of(raw@).len() > 0),
        res.1@ == short_name_of(raw@),
        reads_plainly(raw@),
{
    let full = decode_lossy(raw.as_slice());
    let st = full.as_str();
    let n = st.unicode_len();
    let ghost s = st@;
    let mut a: usize = 0;
    assert(s.subrange(0, n as int) =~= s);
    while a < n && st.get_char(a) == '\0'
        invariant
            s == st@,
            n == s.len(),
            a <= n,
            strip_leading_nul(s) == strip_leading_nul(s.subrange(a as int, n as int)),
        decreases n - a,
    {
        assert(s.subrange(a as int, n as int).drop_first() =~= s.subrange(a + 1, n as int));
        a = a + 1;
    }
    assert(strip_leading_nul(s) == s.subrange(a as int, n as int));
    let mut b: usize = n;
    while b > a && st.get_char(b - 1) == '\0'
        invariant
            s == st@,
            n == s.len(),
            a <= b <= n,
            trim_nul(s) == strip_trailing_nul(s.subrange(a as int, b as int)),
        decreases b,
    {
        assert(s.subrange(a as int, b as int).drop_last() =~= s.subrange(a as int, b - 1));
        b = b - 1;
    }
    assert(trim_nul(s) == s.subrange(a as int, b as int));
    let mut c: usize = b;
    while c > a && st.get_char(c - 1) != '\\'
        invariant
            s == st@,
            n == s.len(),
            a <= c <= b <= n,
            after_last_separator(s.subrange(a as int, b as int)) == after_last_separator(
                s.subrange(a as int, c as int),
            ) + s.subrange(c as int, b as int),
        decreases c,
    {
        let ghost pre = s.subrange(a as int, c as int);
        assert(pre.drop_last() =~= s.subrange(a as int, c - 1));
        assert(after_last_separator(pre) == after_last_separator(pre.drop_last()).push(pre.last()));
        assert(after_last_separator(pre.drop_last()).push(pre.last()) + s.subrange(c as int, b as int)
            =~= after_last_separator(pre.drop_last()) + s.subrange(c - 1, b as int));
        c = c - 1;
    }
    assert(after_last_separator(s.subrange(a as int, c as int)) =~= Seq::empty());
    assert(after_last_separator(s.subrange(a as int, b as int)) =~= s.subrange(c as int, b as int));
    let short = st.substring_char(c, b).to_owned();
    (b > a, short)
}

/// The file's own name in a NUL-padded file-name buffer, if the buffer
/// holds a path at all.
pub fn short_file_name(raw: &Vec<u8>) -> (res: Option<String>)
    ensures
        match res {
            Some(name) => path_of(raw@).len() > 0 && name@ == short_name_of(raw@),
            None => path_of(raw@).len() == 0,
        },
        reads_plainly(raw@),
{
    let (present, short) = parse_file_name(raw);
    if present {
        Some(short)
    } else {
        None
    }
}

/// A running process: its id and the file name of its executable.
#[derive(Debug, Clone)]
pub struct ProcMap {
    pub pid: u32,
    pub name: String,
}

/// What was learnt of one process id: the file-name buffer of its
/// executable, or nothing when the process could not be opened.
#[derive(Debug, Clone)]
pub struct ProcessProbe {
    pub pid: u32,
    pub file_name: Option<Vec<u8>>,
}

/// The ids of a process-id buffer, in order, without the zero slots.
pub open spec fn nonzero_ids(pids: Seq<u32>) -> Seq<u32>
    decreases pids.len(),
{
    if pids.len() == 0 {
        Seq::empty()
    } else if pids.last() == 0 {
        nonzero_ids(pids.drop_last())
    } else {
        nonzero_ids(pids.drop_last()).push(pids.last())
    }
}

/// Keeps the filled slots of a process-id buffer: every id but zero, in
/// order.
pub fn get_process_ids(pids: Vec<u32>) -> (ids: Vec<u32>)
    ensures
        ids@ == nonzero_ids(pids@),
{
    let mut ids: Vec<u32> = Vec::new();
    let mut i: usize = 0;
    while i < pids.len()
        invariant
            i <= pids@.len(),
            ids@ == nonzero_ids(pids@.take(i as int)),
        decreases pids.len() - i,
    {
        assert(pids@.take(i + 1).drop_last() =~= pids@.take(i as int));
        if pids[i] != 0 {
            ids.push(pids[i]);
        }
        i = i + 1;
    }
    assert(pids@.take(pids@.len() as int) =~= pids@);
    ids
}

/// The view of a probe: the process id and the buffer's bytes.
pub open spec fn probe_view(p: ProcessProbe) -> (u32, Option<Seq<u8>>) {
    (
        p.pid,
        match p.file_name {
            Some(raw) => Some(raw@),
            None => None,
        },
    )
}

/// The listed processes: each opened process whose path is non-empty, by
/// id and file name, in the order of the probes.
pub open spec fn listed_processes(probes: Seq<(u32, Option<Seq<u8>>)>) -> Seq<(u32, Seq<char>)>
    decreases probes.len(),
{
    if probes.len() == 0 {
        Seq::empty()
    } else {
        let prev = listed_processes(probes.drop_last());
        match probes.last().1 {
            Some(raw) => if path_of(raw).len() > 0 {
                prev.push((probes.last().0, short_name_of(raw)))
            } else {
                prev
            },
            None => prev,
        }
    }
}

/// Lists the processes that could be opened and whose executable has a
/// non-empty path, each with its id and the file name of the executable.
pub fn print_process_names(probes: &Vec<ProcessProbe>) -> (names: Vec<ProcMap>)
    ensures
        names@.map_values(|p: ProcMap| (p.pid, p.name@)) == listed_processes(
            probes@.map_values(|p: ProcessProbe| probe_view(p)),
        ),
        forall|i: int|
            0 <= i < probes@.len() ==> opt_reads_plainly(#[trigger] probe_view(probes@[i]).1),
{
    let ghost views = probes@.map_values(|p: ProcessProbe| probe_view(p));
    let mut names: Vec<ProcMap> = Vec::new();
    let mut i: usize = 0;
    while i < probes.len()
        invariant
            i <= probes@.len(),
            views == probes@.map_values(|p: ProcessProbe| probe_view(p)),
            names@.map_values(|p: ProcMap| (p.pid, p.name@)) == listed_processes(
                views.take(i as int),
            ),
            forall|j: int| 0 <= j < i ==> opt_reads_plainly(#[trigger] probe_view(probes@[j]).1),
        decreases probes.len() - i,
    {
        assert(views.take(i + 1).drop_last() =~= views.take(i as int));
        assert(views.take(i + 1).last() == probe_view(probes@[i as int]));
        let probe = &probes[i];
        match &probe.file_name {
            Some(raw) => {
                match short_file_name(raw) {
                    Some(name) => {
                        names.push(ProcMap { pid: probe.pid, name });
                    },
                    None => {},
                }
            },
            None => {},
        }
        assert(names@.map_values(|p: ProcMap| (p.pid, p.name@)) =~= listed_processes(
            views.take(i + 1),
        ));
        i = i + 1;
    }
    assert(views.take(probes@.len() as int) =~= views);
    names
}

/// What a process is called when its name cannot be read.
pub open spec fn unknown_process_name() -> Seq<char> {
    "None Found"@
}

/// The name of one process: the file name of its executable, or
/// "None Found" when the process could not be opened or its path is empty.
pub fn get_process_name(file_name: &Option<Vec<u8>>) -> (name: String)
    ensures
        name@ == match file_name {
            Some(raw) => if path_of(raw@).len() > 0 {
                short_name_of(raw@)
            } else {
                unknown_process_name()
            },
            None => unknown_process_name(),
        },
        match file_name {
            Some(raw) => reads_plainly(raw@),
            None => true,
        },
{
    let result = String::from_str("None Found");
    match file_name {
        Some(raw) => match short_file_name(raw) {
            Some(name) => name,
            None => result,
        },
        None => result,
    }
}

/// The module names that a module listing shows: for each module whose
/// file name could be read and holds a non-empty path, its file name.
pub open spec fn listed_modules(file_names: Seq<Option<Seq<u8>>>) -> Seq<Seq<char>>
    decreases file_names.len(),
{
    if file_names.len() == 0 {
        Seq::empty()
    } else {
        let prev = listed_modules(file_names.drop_last());
        match file_names.last() {
            Some(raw) => if path_of(raw).len() > 0 {
                prev.push(short_name_of(raw))
            } else {
                prev
            },
            None => prev,
        }
    }
}

/// The view of an optional buffer.
pub open spec fn opt_bytes(o: Option<Vec<u8>>) -> Option<Seq<u8>> {
    match o {
        Some(raw) => Some(raw@),
        None => None,
    }
}

/// Lists the file names of a process's modules, in order, from the
/// file-name buffers of the modules (`None` where the name could not be
/// read); modules with an empty path are left out.
pub fn print_modules(file_names: &Vec<Option<Vec<u8>>>) -> (response: Vec<String>)
    ensures
        response@.map_values(|s: String| s@) == listed_modules(
            file_names@.map_values(|o: Option<Vec<u8>>| opt_bytes(o)),
        ),
        forall|i: int|
            0 <= i < file_names@.len() ==> opt_reads_plainly(#[trigger] opt_bytes(file_names@[i])),
{
    let ghost views = file_names@.map_values(|o: Option<Vec<u8>>| opt_bytes(o));
    let mut response: Vec<String> = Vec::new();
    let mut i: usize = 0;
    while i < file_names.len()
        invariant
            i <= file_names@.len(),
            views == file_names@.map_values(|o: Option<Vec<u8>>| opt_bytes(o)),
            response@.map_values(|s: String| s@) == listed_modules(views.take(i as int)),
            forall|j: int| 0 <= j < i ==> opt_reads_plainly(#[trigger] opt_bytes(file_names@[j])),
        decreases file_names.len() - i,
    {
        assert(views.take(i + 1).drop_last() =~= views.take(i as int));
        assert(views.take(i + 1).last() == opt_bytes(file_names@[i as int]));
        match &file_names[i] {
            Some(raw) => match short_file_name(raw) {
                Some(name) => {
                    response.push(name);
                },
                None => {},
            },
            None => {},
        }
        assert(response@.map_values(|s: String| s@) =~= listed_modules(views.take(i + 1)));
        i = i + 1;
    }
    assert(views.take(file_names@.len() as int) =~= views);
    response
}

/// How many module handles of a handle buffer holding `capacity` slots a
/// module listing goes through, when the system reported `bytes_needed`:
/// the buffer is cut to that number, never lengthened.
pub fn modules_to_query(capacity: usize, bytes_needed: u32) -> (n: usize)
    ensures
        n == if (bytes_needed as int) < capacity {
            bytes_needed as int
        } else {
            capacity as int
        },
{
    if (bytes_needed as u64) < (capacity as u64) {
        bytes_needed as usize
    } else {
        capacity
    }
}

/// Whether the file name in a module's file-name buffer is the one asked
/// for.
pub fn is_module_named(raw: &Vec<u8>, user_module_name: &String) -> (r: bool)
    ensures
        r == (short_name_of(raw@) == user_module_name@),
        reads_plainly(raw@),
{
    let (_, short_name) = parse_file_name(raw);
    short_name == *user_module_name
}

/// Finds the first module whose file name is the one asked for, among the
/// modules' file-name buffers.
pub fn find_module(file_names: &Vec<Vec<u8>>, user_module_name: &String) -> (found: Option<usize>)
    ensures
        match found {
            Some(i) => i < file_names@.len() && short_name_of(file_names@[i as int]@)
                == user_module_name@ && forall|j: int|
                0 <= j < i ==> short_name_of(#[trigger] file_names@[j]@) != user_module_name@,
            None => forall|j: int|
                0 <= j < file_names@.len() ==> short_name_of(#[trigger] file_names@[j]@)
                    != user_module_name@,
        },
        forall|j: int|
            0 <= j < file_names@.len() && (found matches Some(i) ==> j <= i) ==> reads_plainly(
                #[trigger] file_names@[j]@,
            ),
{
    let mut i: usize = 0;
    while i < file_names.len()
        invariant
            i <= file_names@.len(),
            forall|j: int|
                0 <= j < i ==> short_name_of(#[trigger] file_names@[j]@) != user_module_name@,
            forall|j: int| 0 <= j < i ==> reads_plainly(#[trigger] file_names@[j]@),
        decreases file_names.len() - i,
    {
        if is_module_named(&file_names[i], user_module_name) {
            return Some(i);
        }
        i = i + 1;
    }
    None
}

/// A file's own name holds no backslash.
pub proof fn lemma_short_name_has_no_separator(s: Seq<char>)
    ensures
        !after_last_separator(s).contains('\\'),
    decreases s.len(),
{
    if s.len() > 0 && s.last() != '\\' {
        let prev = after_last_separator(s.drop_last());
        lemma_short_name_has_no_separator(s.drop_last());
        let r = after_last_separator(s);
        assert(r == prev.push(s.last()));
        if r.contains('\\') {
            let i = choose|i: int| 0 <= i < r.len() && r[i] == '\\';
            if i < prev.len() {
                assert(prev[i] == '\\');
            }
        }
    }
}

/// Stripping leading NULs leaves either nothing or a first character that
/// is not NUL.
proof fn lemma_strip_leading(s: Seq<char>)
    ensures
        strip_leading_nul(s).len() > 0 ==> strip_leading_nul(s)[0] != '\0',
    decreases s.len(),
{
    if s.len() > 0 && s[0] == '\0' {
        lemma_strip_leading(s.drop_first());
    }
}

/// Stripping trailing NULs keeps a prefix, and leaves either nothing or a
/// last character that is not NUL.
proof fn lemma_strip_trailing(s: Seq<char>)
    ensures
        strip_trailing_nul(s).len() <= s.len(),
        forall|i: int| 0 <= i < strip_trailing_nul(s).len() ==> strip_trailing_nul(s)[i] == s[i],
        strip_trailing_nul(s).len() > 0 ==> strip_trailing_nul(s).last() != '\0',
    decreases s.len(),
{
    if s.len() > 0 && s.last() == '\0' {
        lemma_strip_trailing(s.drop_last());
        assert forall|i: int| 0 <= i < strip_trailing_nul(s).len() implies strip_trailing_nul(s)[i]
            == s[i] by {
            assert(s.drop_last()[i] == s[i]);
        }
    }
}

/// A path read from a NUL-padded buffer neither starts nor ends with NUL.
pub proof fn lemma_path_has_no_padding(raw: Seq<u8>)
    ensures
        path_of(raw).len() > 0 ==> path_of(raw)[0] != '\0' && path_of(raw).last() != '\0',
{
    let l = strip_leading_nul(utf8_lossy(raw));
    lemma_strip_leading(utf8_lossy(raw));
    lemma_strip_trailing(l);
    if path_of(raw).len() > 0 {
        assert(path_of(raw)[0] == l[0]);
    }
}

/// The kept process ids hold no zero, and every non-zero id of the buffer
/// is kept.
pub proof fn lemma_nonzero_ids(pids: Seq<u32>)
    ensures
        !nonzero_ids(pids).contains(0),
        forall|i: int| 0 <= i < pids.len() && pids[i] != 0 ==> nonzero_ids(pids).contains(
            #[trigger] pids[i],
        ),
    decreases pids.len(),
{
    if pids.len() > 0 {
        let prev = nonzero_ids(pids.drop_last());
        lemma_nonzero_ids(pids.drop_last());
        let r = nonzero_ids(pids);
        if r.contains(0) {
            let k = choose|k: int| 0 <= k < r.len() && r[k] == 0;
            if k < prev.len() {
                assert(prev[k] == 0);
            }
        }
        assert forall|i: int| 0 <= i < pids.len() && pids[i] != 0 implies r.contains(
            #[trigger] pids[i],
        ) by {
            if i < pids.len() - 1 {
                assert(pids.drop_last()[i] == pids[i]);
                let k = choose|k: int| 0 <= k < prev.len() && prev[k] == pids[i];
                assert(r[k] == pids[i]);
            } else {
                assert(r[prev.len() as int] == pids[i]);
            }
        }
    }
}

/// Whether a file-name buffer was read and holds a non-empty path.
pub open spec fn has_path(o: Option<Seq<u8>>) -> bool {
    match o {
        Some(raw) => path_of(raw).len() > 0,
        None => false,
    }
}

/// The file's own name in a buffer that was read.
pub open spec fn opt_short_name(o: Option<Seq<u8>>) -> Seq<char> {
    match o {
        Some(raw) => short_name_of(raw),
        None => Seq::empty(),
    }
}

/// The process listing is exactly one entry per probe that was opened and
/// holds a non-empty path, in the order of the probes, each with its pid
/// and file name.
pub proof fn lemma_listed_processes_are_filter(probes: Seq<(u32, Option<Seq<u8>>)>)
    ensures
        listed_processes(probes) == probes.filter(|p: (u32, Option<Seq<u8>>)| has_path(p.1)).map_values(
            |p: (u32, Option<Seq<u8>>)| (p.0, opt_short_name(p.1)),
        ),
    decreases probes.len(),
{
    reveal(Seq::filter);
    let pred = |p: (u32, Option<Seq<u8>>)| has_path(p.1);
    let f = |p: (u32, Option<Seq<u8>>)| (p.0, opt_short_name(p.1));
    if probes.len() == 0 {
        assert(probes.filter(pred).map_values(f) =~= Seq::<(u32, Seq<char>)>::empty());
    } else {
        lemma_listed_processes_are_filter(probes.drop_last());
        let sub = probes.drop_last().filter(pred);
        if pred(probes.last()) {
            assert(sub.push(probes.last()).map_values(f) =~= sub.map_values(f).push(f(probes.last())));
        }
    }
}

/// The module listing is exactly the file name of every module whose name
/// was read and holds a non-empty path, in order, each once.
pub proof fn lemma_listed_modules_are_filter(file_names: Seq<Option<Seq<u8>>>)
    ensures
        listed_modules(file_names) == file_names.filter(|o: Option<Seq<u8>>| has_path(o)).map_values(
            |o: Option<Seq<u8>>| opt_short_name(o),
        ),
    decreases file_names.len(),
{
    reveal(Seq::filter);
    let pred = |o: Option<Seq<u8>>| has_path(o);
    let f = |o: Option<Seq<u8>>| opt_short_name(o);
    if file_names.len() == 0 {
        assert(file_names.filter(pred).map_values(f) =~= Seq::<Seq<char>>::empty());
    } else {
        lemma_listed_modules_are_filter(file_names.drop_last());
        let sub = file_names.drop_last().filter(pred);
        if pred(file_names.last()) {
            assert(sub.push(file_names.last()).map_values(f) =~= sub.map_values(f).push(
                f(file_names.last()),
            ));
        }
    }
}

/// The part after the last backslash is a whole tail of the path: the
/// path is some prefix followed by it, the prefix is empty or ends in a
/// backslash, and the tail holds no backslash.
pub proof fn lemma_after_last_separator_is_last_segment(s: Seq<char>)
    ensures
        after_last_separator(s).len() <= s.len(),
        s == s.take(s.len() - after_last_separator(s).len()) + after_last_separator(s),
        after_last_separator(s).len() == s.len() || s[s.len() - after_last_separator(s).len() - 1]
            == '\\',
        !after_last_separator(s).contains('\\'),
    decreases s.len(),
{
    lemma_short_name_has_no_separator(s);
    let a = after_last_separator(s);
    if s.len() == 0 {
        assert(s.take(0) + a =~= s);
    } else if s.last() == '\\' {
        assert(s.take(s.len() as int) + a =~= s);
    } else {
        let t = s.drop_last();
        lemma_after_last_separator_is_last_segment(t);
        let at = after_last_separator(t);
        assert(a == at.push(s.last()));
        assert(s.take(s.len() - a.len()) =~= t.take(t.len() - at.len()));
        let pre = t.take(t.len() - at.len());
        assert(t.push(s.last()) =~= s);
        assert((pre + at).push(s.last()) =~= pre + at.push(s.last()));
        assert(s =~= pre + at.push(s.last()));
        if at.len() < t.len() {
            assert(s[s.len() - a.len() - 1] == t[t.len() - at.len() - 1]);
        }
    }
}

/// A file's short name is the whole last segment of its path: the path is
/// a prefix that is empty or ends in a backslash, followed by the short
/// name, which holds no backslash.
pub proof fn lemma_short_name_is_last_segment(raw: Seq<u8>)
    ensures
        ({
            let p = path_of(raw);
            let n = short_name_of(raw);
            &&& n.len() <= p.len()
            &&& p == p.take(p.len() - n.len()) + n
            &&& (n.len() == p.len() || p[p.len() - n.len() - 1] == '\\')
            &&& !n.contains('\\')
        }),
{
    lemma_after_last_separator_is_last_segment(path_of(raw));
}

/// All characters of `s` are NUL.
pub open spec fn all_nul(s: Seq<char>) -> bool {
    forall|i: int| 0 <= i < s.len() ==> s[i] == '\0'
}

/// Stripping leading NULs removes a run of NULs in front.
proof fn lemma_strip_leading_split(s: Seq<char>)
    ensures
        strip_leading_nul(s).len() <= s.len(),
        s == s.take(s.len() - strip_leading_nul(s).len()) + strip_leading_nul(s),
        all_nul(s.take(s.len() - strip_leading_nul(s).len())),
    decreases s.len(),
{
    if s.len() > 0 && s[0] == '\0' {
        let t = s.drop_first();
        lemma_strip_leading_split(t);
        let r = strip_leading_nul(t);
        let k = t.len() - r.len();
        assert(s.take(s.len() - r.len()) =~= seq!['\0'].add(t.take(k)));
        assert(s =~= seq!['\0'] + t);
        assert(seq!['\0'] + (t.take(k) + r) =~= (seq!['\0'] + t.take(k)) + r);
        assert(s =~= s.take(s.len() - r.len()) + r);
    } else {
        assert(s.take(0) + s =~= s);
    }
}

/// Stripping trailing NULs removes a run of NULs at the end.
proof fn lemma_strip_trailing_split(s: Seq<char>)
    ensures
        strip_trailing_nul(s).len() <= s.len(),
        s == strip_trailing_nul(s) + s.skip(strip_trailing_nul(s).len() as int),
        all_nul(s.skip(strip_trailing_nul(s).len() as int)),
    decreases s.len(),
{
    if s.len() > 0 && s.last() == '\0' {
        let t = s.drop_last();
        lemma_strip_trailing_split(t);
        let r = strip_trailing_nul(t);
        assert(s.skip(r.len() as int) =~= t.skip(r.len() as int).push('\0'));
        assert(t.push('\0') =~= s);
        assert((r + t.skip(r.len() as int)).push('\0') =~= r + t.skip(r.len() as int).push('\0'));
        assert(s =~= r + s.skip(r.len() as int));
    } else {
        assert(s + s.skip(s.len() as int) =~= s);
    }
}

/// The path of a file-name buffer is its text without the NULs around it:
/// the text is a run of NULs, the path, and a run of NULs, and the path
/// neither starts nor ends with NUL.
pub proof fn lemma_path_is_text_without_padding(raw: Seq<u8>)
    ensures
        exists|lead: Seq<char>, trail: Seq<char>|
            all_nul(lead) && all_nul(trail) && utf8_lossy(raw) == lead + path_of(raw) + trail,
        path_of(raw).len() > 0 ==> path_of(raw)[0] != '\0' && path_of(raw).last() != '\0',
{
    let t = utf8_lossy(raw);
    let l = strip_leading_nul(t);
    lemma_strip_leading_split(t);
    lemma_strip_trailing_split(l);
    lemma_path_has_no_padding(raw);
    let lead = t.take(t.len() - l.len());
    let trail = l.skip(path_of(raw).len() as int);
    assert(t =~= lead + path_of(raw) + trail);
}

} // verus!
