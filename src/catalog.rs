use vstd::prelude::*;

verus! {

/// One published build of a component in a continuous-build catalog.
pub struct BuildRecord {
    pub channel: String,
    pub version: String,
    pub publish_time: u64,
}

/// A component together with its published builds, in catalog order.
pub struct CatalogEntry {
    pub component: String,
    pub records: Vec<BuildRecord>,
}

/// A read-only snapshot of a version catalog: component name to build records.
pub struct VersionCatalog {
    pub entries: Vec<CatalogEntry>,
}

/// The build chosen for a component under a channel.
pub struct ResolvedVersion {
    pub component: String,
    pub record: BuildRecord,
}

pub enum ResolutionError {
    NoMatchingChannel,
}

/// Strict lexicographic order on character sequences, by code point.
pub open spec fn text_lt(a: Seq<char>, b: Seq<char>) -> bool
    decreases a.len(),
{
    if a.len() == 0 {
        b.len() > 0
    } else if b.len() == 0 {
        false
    } else if a[0] != b[0] {
        (a[0] as u32) < (b[0] as u32)
    } else {
        text_lt(a.drop_first(), b.drop_first())
    }
}

pub open spec fn is_digit(c: char) -> bool {
    48 <= (c as u32) <= 57
}

/// The length of the run of decimal digits that `s` starts with.
pub open spec fn digit_run(s: Seq<char>) -> nat
    decreases s.len(),
{
    if s.len() > 0 && is_digit(s[0]) {
        1 + digit_run(s.drop_first())
    } else {
        0
    }
}

/// Strict order on version strings. Where both strings continue with a run
/// of digits, the shorter run is the smaller number and runs of one length
/// compare digit by digit, so numbers without leading zeros compare by value
/// (`0.9.9` comes before `0.9.10`); other characters compare by code point.
pub open spec fn version_lt(a: Seq<char>, b: Seq<char>) -> bool
    decreases a.len(),
{
    if a.len() == 0 {
        b.len() > 0
    } else if b.len() == 0 {
        false
    } else if is_digit(a[0]) && is_digit(b[0]) {
        let ra = digit_run(a);
        let rb = digit_run(b);
        if ra != rb {
            ra < rb
        } else if a.take(ra as int) != b.take(ra as int) {
            text_lt(a.take(ra as int), b.take(ra as int))
        } else if ra == 0 || ra > a.len() {
            false
        } else {
            version_lt(a.skip(ra as int), b.skip(ra as int))
        }
    } else if a[0] != b[0] {
        (a[0] as u32) < (b[0] as u32)
    } else {
        version_lt(a.drop_first(), b.drop_first())
    }
}

/// `a` was published before `b`: an earlier timestamp, or the same timestamp
/// and a lower version string.
pub open spec fn published_before(a: BuildRecord, b: BuildRecord) -> bool {
    a.publish_time < b.publish_time || (a.publish_time == b.publish_time && version_lt(
        a.version@,
        b.version@,
    ))
}

/// `k` is the first entry of the catalog that names `name`.
pub open spec fn is_first_entry(cat: VersionCatalog, name: Seq<char>, k: int) -> bool {
    &&& 0 <= k < cat.entries.len()
    &&& cat.entries@[k].component@ == name
    &&& forall|j: int| 0 <= j < k ==> cat.entries@[j].component@ != name
}

pub open spec fn has_channel(records: Seq<BuildRecord>, ch: Seq<char>) -> bool {
    exists|i: int| 0 <= i < records.len() && records[i].channel@ == ch
}

/// `r` is a record of `records` on channel `ch` and no record of that channel
/// was published after it.
pub open spec fn is_latest(records: Seq<BuildRecord>, ch: Seq<char>, r: BuildRecord) -> bool {
    &&& exists|i: int| 0 <= i < records.len() && records[i] == r
    &&& r.channel@ == ch
    &&& forall|i: int|
        0 <= i < records.len() && records[i].channel@ == ch ==> !published_before(r, records[i])
}

/// The channel can be resolved: the component is listed and has a record on it.
pub open spec fn resolvable(cat: VersionCatalog, name: Seq<char>, ch: Seq<char>) -> bool {
    exists|k: int| is_first_entry(cat, name, k) && has_channel(cat.entries@[k].records@, ch)
}

proof fn lemma_text_lt_transitive(a: Seq<char>, b: Seq<char>, c: Seq<char>)
    requires
        text_lt(a, b),
        text_lt(b, c),
    ensures
        text_lt(a, c),
    decreases a.len(),
{
    if a.len() > 0 && b.len() > 0 && c.len() > 0 && a[0] == b[0] && b[0] == c[0] {
        lemma_text_lt_transitive(a.drop_first(), b.drop_first(), c.drop_first());
    }
}

proof fn lemma_text_lt_irreflexive(a: Seq<char>)
    ensures
        !text_lt(a, a),
    decreases a.len(),
{
    if a.len() > 0 {
        lemma_text_lt_irreflexive(a.drop_first());
    }
}

/// Two sequences that agree before index `j` and differ at `j` compare as
/// their characters at `j` do.
proof fn lemma_text_lt_first_difference(a: Seq<char>, b: Seq<char>, j: int)
    requires
        0 <= j < a.len(),
        j < b.len(),
        a[j] != b[j],
        forall|k: int| 0 <= k < j ==> a[k] == b[k],
    ensures
        text_lt(a, b) == ((a[j] as u32) < (b[j] as u32)),
    decreases j,
{
    if j > 0 {
        lemma_text_lt_first_difference(a.drop_first(), b.drop_first(), j - 1);
    }
}

proof fn lemma_digit_run_bound(s: Seq<char>)
    ensures
        digit_run(s) <= s.len(),
        s.len() > 0 && is_digit(s[0]) ==> digit_run(s) >= 1,
    decreases s.len(),
{
    if s.len() > 0 && is_digit(s[0]) {
        lemma_digit_run_bound(s.drop_first());
    }
}

proof fn lemma_version_lt_irreflexive(a: Seq<char>)
    ensures
        !version_lt(a, a),
    decreases a.len(),
{
    if a.len() > 0 {
        lemma_digit_run_bound(a);
        if is_digit(a[0]) {
            let r = digit_run(a);
            lemma_version_lt_irreflexive(a.skip(r as int));
        } else {
            lemma_version_lt_irreflexive(a.drop_first());
        }
    }
}

proof fn lemma_version_lt_transitive(a: Seq<char>, b: Seq<char>, c: Seq<char>)
    requires
        version_lt(a, b),
        version_lt(b, c),
    ensures
        version_lt(a, c),
    decreases a.len(),
{
    if a.len() > 0 && b.len() > 0 && c.len() > 0 {
        lemma_digit_run_bound(a);
        lemma_digit_run_bound(b);
        lemma_digit_run_bound(c);
        if is_digit(a[0]) && is_digit(b[0]) && is_digit(c[0]) {
            let ra = digit_run(a);
            let rb = digit_run(b);
            let rc = digit_run(c);
            if ra == rb && rb == rc {
                let ta = a.take(ra as int);
                let tb = b.take(ra as int);
                let tc = c.take(ra as int);
                if ta != tb && tb != tc {
                    lemma_text_lt_transitive(ta, tb, tc);
                    if ta == tc {
                        lemma_text_lt_irreflexive(ta);
                    }
                } else if ta == tb && tb == tc {
                    lemma_version_lt_transitive(
                        a.skip(ra as int),
                        b.skip(ra as int),
                        c.skip(ra as int),
                    );
                }
            }
        } else if !is_digit(a[0]) && !is_digit(b[0]) && !is_digit(c[0]) && a[0] == b[0] && b[0]
            == c[0] {
            lemma_version_lt_transitive(a.drop_first(), b.drop_first(), c.drop_first());
        }
    }
}

proof fn lemma_published_before_transitive(a: BuildRecord, b: BuildRecord, c: BuildRecord)
    requires
        published_before(a, b),
        published_before(b, c),
    ensures
        published_before(a, c),
{
    if a.publish_time == b.publish_time && b.publish_time == c.publish_time {
        lemma_version_lt_transitive(a.version@, b.version@, c.version@);
    }
}

fn char_at(s: &str, i: usize) -> (c: char)
    requires
        i < s@.len(),
    ensures
        c == s@[i as int],
{
    s.get_char(i)
}

fn char_is_digit(c: char) -> (r: bool)
    ensures
        r == is_digit(c),
{
    48u32 <= (c as u32) && (c as u32) <= 57u32
}

/// The end of the run of digits of `s` that starts at `from`.
fn digit_run_end(s: &str, len: usize, from: usize) -> (k: usize)
    requires
        len == s@.len(),
        from <= len,
    ensures
        k == from + digit_run(s@.skip(from as int)),
        k <= len,
{
    let mut p = from;
    while p < len && char_is_digit(char_at(s, p))
        invariant
            len == s@.len(),
            from <= p <= len,
            digit_run(s@.skip(from as int)) == (p - from) + digit_run(s@.skip(p as int)),
        decreases len - p,
    {
        proof {
            assert(s@.skip(p as int).drop_first() =~= s@.skip(p + 1));
        }
        p = p + 1;
    }
    p
}

/// Compares two version strings in the order of `version_lt`.
pub fn version_less(a: &str, b: &str) -> (r: bool)
    ensures
        r == version_lt(a@, b@),
{
    let la = a.unicode_len();
    let lb = b.unicode_len();
    let mut i: usize = 0;
    assert(a@.skip(0) =~= a@);
    assert(b@.skip(0) =~= b@);
    while i < la && i < lb
        invariant
            la == a@.len(),
            lb == b@.len(),
            i <= la,
            i <= lb,
            version_lt(a@, b@) == version_lt(a@.skip(i as int), b@.skip(i as int)),
        decreases la - i,
    {
        let ca = char_at(a, i);
        let cb = char_at(b, i);
        let ghost sa = a@.skip(i as int);
        let ghost sb = b@.skip(i as int);
        if char_is_digit(ca) && char_is_digit(cb) {
            let ea = digit_run_end(a, la, i);
            let eb = digit_run_end(b, lb, i);
            proof {
                lemma_digit_run_bound(sa);
            }
            if ea != eb {
                return ea < eb;
            }
            let mut j: usize = i;
            while j < ea
                invariant
                    la == a@.len(),
                    lb == b@.len(),
                    i <= j <= ea,
                    ea <= la,
                    ea <= lb,
                    i < la,
                    i < lb,
                    sa == a@.skip(i as int),
                    sb == b@.skip(i as int),
                    ca == a@[i as int],
                    cb == b@[i as int],
                    is_digit(ca),
                    is_digit(cb),
                    ea == i + digit_run(sa),
                    ea == i + digit_run(sb),
                    version_lt(a@, b@) == version_lt(sa, sb),
                    forall|k: int| i <= k < j ==> a@[k] == b@[k],
                decreases ea - j,
            {
                let xa = char_at(a, j);
                let xb = char_at(b, j);
                if xa != xb {
                    proof {
                        let n = (ea - i) as int;
                        let ta = sa.take(n);
                        let tb = sb.take(n);
                        assert forall|k: int| 0 <= k < j - i implies ta[k] == tb[k] by {
                            assert(ta[k] == a@[i + k]);
                            assert(tb[k] == b@[i + k]);
                        }
                        assert(ta[j - i] == xa);
                        assert(tb[j - i] == xb);
                        lemma_text_lt_first_difference(ta, tb, j - i);
                        assert(ta != tb);
                        assert(sa[0] == ca && sb[0] == cb);
                        assert(version_lt(sa, sb) == text_lt(ta, tb));
                    }
                    return (xa as u32) < (xb as u32);
                }
                j = j + 1;
            }
            proof {
                let n = (ea - i) as int;
                assert(sa.take(n) =~= sb.take(n));
                assert(sa.skip(n) =~= a@.skip(ea as int));
                assert(sb.skip(n) =~= b@.skip(ea as int));
            }
            i = ea;
        } else {
            if ca != cb {
                return (ca as u32) < (cb as u32);
            }
            proof {
                assert(sa.drop_first() =~= a@.skip(i + 1));
                assert(sb.drop_first() =~= b@.skip(i + 1));
            }
            i = i + 1;
        }
    }
    i < lb
}

fn record_before(a: &BuildRecord, b: &BuildRecord) -> (r: bool)
    ensures
        r == published_before(*a, *b),
{
    a.publish_time < b.publish_time || (a.publish_time == b.publish_time && version_less(
        a.version.as_str(),
        b.version.as_str(),
    ))
}

fn copy_record(r: &BuildRecord) -> (c: BuildRecord)
    ensures
        c == *r,
{
    BuildRecord {
        channel: r.channel.clone(),
        version: r.version.clone(),
        publish_time: r.publish_time,
    }
}

fn same_text(a: &String, b: &str) -> (r: bool)
    ensures
        r == (a@ == b@),
{
    let owned = b.to_owned();
    *a == owned
}

/// Picks, among `records`, the latest one on channel `ch`.
pub fn latest_on_channel(records: &Vec<BuildRecord>, ch: &str) -> (r: Option<BuildRecord>)
    ensures
        match r {
            Some(rec) => is_latest(records@, ch@, rec),
            None => !has_channel(records@, ch@),
        },
{
    let mut best: Option<usize> = None;
    let mut i: usize = 0;
    while i < records.len()
        invariant
            i <= records.len(),
            match best {
                Some(b) => {
                    &&& b < i
                    &&& records@[b as int].channel@ == ch@
                    &&& forall|k: int|
                        0 <= k < i && records@[k].channel@ == ch@ ==> !published_before(
                            records@[b as int],
                            records@[k],
                        )
                },
                None => forall|k: int| 0 <= k < i ==> records@[k].channel@ != ch@,
            },
        decreases records.len() - i,
    {
        proof {
            lemma_version_lt_irreflexive(records@[i as int].version@);
        }
        if same_text(&records[i].channel, ch) {
            match best {
                None => {
                    best = Some(i);
                },
                Some(b) => {
                    if record_before(&records[b], &records[i]) {
                        proof {
                            assert forall|k: int|
                                0 <= k < i && records@[k].channel@ == ch@ implies !published_before(
                                records@[i as int],
                                records@[k],
                            ) by {
                                if published_before(records@[i as int], records@[k]) {
                                    lemma_published_before_transitive(
                                        records@[b as int],
                                        records@[i as int],
                                        records@[k],
                                    );
                                }
                            }
                        }
                        best = Some(i);
                    }
                },
            }
        }
        i = i + 1;
    }
    match best {
        None => None,
        Some(b) => {
            let c = copy_record(&records[b]);
            assert(records@[b as int] == c);
            Some(c)
        },
    }
}

/// Resolves the version of `component_name` to use on channel `channel`.
///
/// The first catalog entry naming the component is consulted; among its
/// records on exactly that channel, the one with the latest publish time is
/// chosen, ties going to the higher version string.
pub fn resolve(component_name: &str, channel: &str, build_catalog: &VersionCatalog) -> (r: Result<
    ResolvedVersion,
    ResolutionError,
>)
    ensures
        r is Ok <==> resolvable(*build_catalog, component_name@, channel@),
        r is Ok ==> r->Ok_0.record.channel@ == channel@,
        r is Ok ==> r->Ok_0.component@ == component_name@,
        r is Ok ==> exists|k: int|
            is_first_entry(*build_catalog, component_name@, k) && is_latest(
                build_catalog.entries@[k].records@,
                channel@,
                r->Ok_0.record,
            ),
{
    let mut k: usize = 0;
    while k < build_catalog.entries.len()
        invariant
            k <= build_catalog.entries.len(),
            forall|j: int| 0 <= j < k ==> build_catalog.entries@[j].component@ != component_name@,
        decreases build_catalog.entries.len() - k,
    {
        let entry = &build_catalog.entries[k];
        if same_text(&entry.component, component_name) {
            assert(is_first_entry(*build_catalog, component_name@, k as int));
            match latest_on_channel(&entry.records, channel) {
                Some(rec) => {
                    return Ok(ResolvedVersion { component: component_name.to_owned(), record: rec });
                },
                None => {
                    proof {
                        assert forall|k2: int|
                            is_first_entry(
                                *build_catalog,
                                component_name@,
                                k2,
                            ) implies !has_channel(
                            build_catalog.entries@[k2].records@,
                            channel@,
                        ) by {
                            assert(k2 == k);
                        }
                    }
                    return Err(ResolutionError::NoMatchingChannel);
                },
            }
        }
        k = k + 1;
    }
    Err(ResolutionError::NoMatchingChannel)
}

} // verus!
