use vstd::prelude::*;
use vstd::arithmetic::div_mod::lemma_fundamental_div_mod;
use crate::clock::now_millis;
use crate::error::CoreError;

verus! {

/// Relies on std's `String::push`: appends exactly the one character.
/// vstd specifies `append` for string slices but not `push`.
#[verifier::external_body]
fn push_char(s: &mut String, c: char)
    ensures
        final(s)@ == old(s)@.push(c),
{
    s.push(c)
}

/// The decimal digit character for `d`.
pub open spec fn digit_char(d: int) -> char {
    ((48 + d) as u8) as char
}

/// The decimal digits of `n`, most significant first.
pub open spec fn spec_digits(n: nat) -> Seq<char>
    decreases n,
{
    if n < 10 {
        seq![digit_char(n as int)]
    } else {
        spec_digits(n / 10).push(digit_char((n % 10) as int))
    }
}

pub proof fn lemma_digits_len(n: nat)
    ensures
        n < 10 ==> spec_digits(n).len() == 1,
        n >= 10 ==> spec_digits(n).len() >= 2,
        spec_digits(n).len() >= 1,
    decreases n,
{
    if n >= 10 {
        lemma_digits_len(n / 10);
    }
}

/// Two distinct numbers never render to the same digit string.
pub proof fn lemma_digits_injective(a: nat, b: nat)
    ensures
        spec_digits(a) == spec_digits(b) ==> a == b,
    decreases a + b,
{
    if spec_digits(a) == spec_digits(b) {
        lemma_digits_len(a);
        lemma_digits_len(b);
        if a < 10 && b < 10 {
            assert(spec_digits(a)[0] == spec_digits(b)[0]);
        } else if a >= 10 && b >= 10 {
            assert(spec_digits(a).last() == spec_digits(b).last());
            assert(spec_digits(a).drop_last() =~= spec_digits(a / 10));
            assert(spec_digits(b).drop_last() =~= spec_digits(b / 10));
            lemma_digits_injective(a / 10, b / 10);
            lemma_fundamental_div_mod(a as int, 10);
            lemma_fundamental_div_mod(b as int, 10);
        }
    }
}

/// Append the decimal rendering of `n`.
fn push_digits(n: u64, out: &mut String)
    ensures
        final(out)@ == old(out)@ + spec_digits(n as nat),
    decreases n,
{
    if n < 10 {
        push_char(out, (48 + n as u8) as char);
        proof {
            assert(final(out)@ =~= old(out)@ + spec_digits(n as nat));
        }
    } else {
        push_digits(n / 10, out);
        push_char(out, (48 + (n % 10) as u8) as char);
        proof {
            assert(final(out)@ =~= old(out)@ + spec_digits(n as nat));
        }
    }
}

/// Characters a sanitized filename may keep: ASCII alphanumerics, `.`, `-`
/// and `_`.
pub open spec fn keep_char(c: char) -> bool {
    ||| ('a' <= c && c <= 'z')
    ||| ('A' <= c && c <= 'Z')
    ||| ('0' <= c && c <= '9')
    ||| c == '.'
    ||| c == '-'
    ||| c == '_'
}

/// The filename hint with every disallowed character dropped.
pub open spec fn spec_sanitize(s: Seq<char>) -> Seq<char>
    decreases s.len(),
{
    if s.len() == 0 {
        Seq::empty()
    } else {
        spec_sanitize(s.drop_last()) + if keep_char(s.last()) {
            seq![s.last()]
        } else {
            Seq::<char>::empty()
        }
    }
}

/// The fixed placeholder used when nothing of a name survives sanitizing, and
/// when a source path has no filename at all.
pub open spec fn placeholder_name() -> Seq<char> {
    seq!['f', 'i', 'l', 'e']
}

/// The sanitized filename hint, or the placeholder if nothing survives.
pub open spec fn spec_safe_name(hint: Seq<char>) -> Seq<char> {
    if spec_sanitize(hint).len() == 0 {
        placeholder_name()
    } else {
        spec_sanitize(hint)
    }
}

/// Sanitize a filename hint to the allowed character set, falling back to the
/// placeholder when nothing survives.
pub fn sanitize_filename(hint: &str) -> (r: String)
    ensures
        r@ == spec_safe_name(hint@),
{
    let len: usize = hint.unicode_len();
    let mut out = String::new();
    let mut i: usize = 0;
    proof {
        assert(out@ =~= spec_sanitize(hint@.take(0)));
    }
    while i < len
        invariant
            i <= len,
            len == hint@.len(),
            out@ == spec_sanitize(hint@.take(i as int)),
        decreases len - i,
    {
        let c = hint.get_char(i);
        if ('a' <= c && c <= 'z') || ('A' <= c && c <= 'Z') || ('0' <= c && c <= '9') || c == '.'
            || c == '-' || c == '_' {
            push_char(&mut out, c);
        }
        i = i + 1;
        proof {
            assert(hint@.take(i as int).drop_last() =~= hint@.take(i - 1 as int));
            assert(out@ =~= spec_sanitize(hint@.take(i as int)));
        }
    }
    proof {
        assert(hint@.take(len as int) =~= hint@);
    }
    if out.as_str().unicode_len() == 0 {
        proof {
            reveal_strlit("file");
        }
        let f = String::from_str("file");
        proof {
            assert(f@ =~= placeholder_name());
        }
        f
    } else {
        out
    }
}

/// Whether `c` separates path components.
pub open spec fn is_sep(c: char) -> bool {
    c == '/' || c == '\\'
}

/// The component of a path after its last separator.
pub open spec fn spec_base_name(p: Seq<char>) -> Seq<char>
    decreases p.len(),
{
    if p.len() == 0 {
        Seq::empty()
    } else if is_sep(p.last()) {
        Seq::empty()
    } else {
        spec_base_name(p.drop_last()).push(p.last())
    }
}

/// The filename a source path contributes: its last component, or the
/// placeholder for a path that ends in a separator or is empty.
pub open spec fn spec_source_name(p: Seq<char>) -> Seq<char> {
    if spec_base_name(p).len() == 0 {
        placeholder_name()
    } else {
        spec_base_name(p)
    }
}

/// The last path component, or the placeholder when there is none.
pub fn source_name(path: &str) -> (r: String)
    ensures
        r@ == spec_source_name(path@),
{
    let len: usize = path.unicode_len();
    let mut out = String::new();
    let mut i: usize = 0;
    proof {
        assert(out@ =~= spec_base_name(path@.take(0)));
    }
    while i < len
        invariant
            i <= len,
            len == path@.len(),
            out@ == spec_base_name(path@.take(i as int)),
        decreases len - i,
    {
        let c = path.get_char(i);
        if c == '/' || c == '\\' {
            out = String::new();
        } else {
            push_char(&mut out, c);
        }
        i = i + 1;
        proof {
            assert(path@.take(i as int).drop_last() =~= path@.take(i - 1 as int));
            assert(out@ =~= spec_base_name(path@.take(i as int)));
        }
    }
    proof {
        assert(path@.take(len as int) =~= path@);
    }
    if out.as_str().unicode_len() == 0 {
        proof {
            reveal_strlit("file");
        }
        let f = String::from_str("file");
        proof {
            assert(f@ =~= placeholder_name());
        }
        f
    } else {
        out
    }
}

/// The category directories assets are routed into.
#[derive(Debug, Clone, Copy, PartialEq, Eq, Structural)]
pub enum FileCategory {
    Pdfs,
    Images,
    Other,
}

/// Routing by declared file type: `pdf` and `image` have their own
/// directories, anything else lands in `other`.
pub open spec fn spec_category(ft: Seq<char>) -> FileCategory {
    if ft == seq!['p', 'd', 'f'] {
        FileCategory::Pdfs
    } else if ft == seq!['i', 'm', 'a', 'g', 'e'] {
        FileCategory::Images
    } else {
        FileCategory::Other
    }
}

pub open spec fn spec_category_path(c: FileCategory) -> Seq<char> {
    match c {
        FileCategory::Pdfs => seq!['p', 'd', 'f', 's'],
        FileCategory::Images => seq!['i', 'm', 'a', 'g', 'e', 's'],
        FileCategory::Other => seq!['o', 't', 'h', 'e', 'r'],
    }
}

pub fn category_of(file_type: &str) -> (c: FileCategory)
    ensures
        c == spec_category(file_type@),
{
    let len: usize = file_type.unicode_len();
    if len == 3 && file_type.get_char(0) == 'p' && file_type.get_char(1) == 'd'
        && file_type.get_char(2) == 'f' {
        proof {
            assert(file_type@ =~= seq!['p', 'd', 'f']);
        }
        FileCategory::Pdfs
    } else if len == 5 && file_type.get_char(0) == 'i' && file_type.get_char(1) == 'm'
        && file_type.get_char(2) == 'a' && file_type.get_char(3) == 'g' && file_type.get_char(4)
        == 'e' {
        proof {
            assert(file_type@ =~= seq!['i', 'm', 'a', 'g', 'e']);
        }
        FileCategory::Images
    } else {
        proof {
            if file_type@ == seq!['p', 'd', 'f'] {
                assert(file_type@.len() == 3 && file_type@[0] == 'p' && file_type@[1] == 'd'
                    && file_type@[2] == 'f');
            }
            if file_type@ == seq!['i', 'm', 'a', 'g', 'e'] {
                assert(file_type@.len() == 5 && file_type@[0] == 'i' && file_type@[1] == 'm'
                    && file_type@[2] == 'a' && file_type@[3] == 'g' && file_type@[4] == 'e');
            }
        }
        FileCategory::Other
    }
}

/// The category's directory name.
pub fn category_dir(c: FileCategory) -> (r: String)
    ensures
        r@ == spec_category_path(c),
{
    match c {
        FileCategory::Pdfs => {
            proof {
                reveal_strlit("pdfs");
            }
            let r = String::from_str("pdfs");
            proof {
                assert(r@ =~= spec_category_path(FileCategory::Pdfs));
            }
            r
        },
        FileCategory::Images => {
            proof {
                reveal_strlit("images");
            }
            let r = String::from_str("images");
            proof {
                assert(r@ =~= spec_category_path(FileCategory::Images));
            }
            r
        },
        FileCategory::Other => {
            proof {
                reveal_strlit("other");
            }
            let r = String::from_str("other");
            proof {
                assert(r@ =~= spec_category_path(FileCategory::Other));
            }
            r
        },
    }
}

/// The collision-resistant filename for an asset ingested at `ts`
/// milliseconds: the timestamp, an underscore, then the original name.
pub open spec fn spec_unique_name(ts: nat, name: Seq<char>) -> Seq<char> {
    spec_digits(ts) + seq!['_'] + name
}

/// Build the unique filename for an ingestion at time `ts`.
pub fn unique_name(ts: u64, name: &str) -> (r: String)
    ensures
        r@ == spec_unique_name(ts as nat, name@),
{
    let mut out = String::new();
    push_digits(ts, &mut out);
    push_char(&mut out, '_');
    out.append(name);
    proof {
        assert(out@ =~= spec_unique_name(ts as nat, name@));
    }
    out
}

/// A locator: the category directory, a slash, and the unique filename. It is
/// always relative to the assets root.
pub open spec fn spec_locator(c: FileCategory, filename: Seq<char>) -> Seq<char> {
    spec_category_path(c) + seq!['/'] + filename
}

/// Build the locator for a categorized filename.
pub fn make_locator(c: FileCategory, filename: &str) -> (r: String)
    ensures
        r@ == spec_locator(c, filename@),
{
    let mut out = category_dir(c);
    push_char(&mut out, '/');
    out.append(filename);
    proof {
        assert(out@ =~= spec_locator(c, filename@));
    }
    out
}

/// The absolute path a locator resolves to under an assets root: pure path
/// composition, no input/output, total on well-formed locators.
pub fn resolve_path(assets_root: &str, locator: &str) -> (r: String)
    ensures
        r@ == assets_root@ + seq!['/'] + locator@,
{
    let mut out = assets_root.to_owned();
    push_char(&mut out, '/');
    out.append(locator);
    proof {
        assert(out@ =~= assets_root@ + seq!['/'] + locator@);
    }
    out
}

/// The fixed directory skeleton under an application data root. Creating
/// these, in order, on every startup is idempotent and safe.
pub fn layout_dirs(root: &str) -> (r: Vec<String>)
    ensures
        r@.len() == 5,
        r@[0]@ == root@ + "/assets/pdfs"@,
        r@[1]@ == root@ + "/assets/images"@,
        r@[2]@ == root@ + "/assets/other"@,
        r@[3]@ == root@ + "/backups"@,
        r@[4]@ == root@ + "/temp"@,
{
    let mut dirs: Vec<String> = Vec::new();
    let mut d0 = root.to_owned();
    d0.append("/assets/pdfs");
    dirs.push(d0);
    let mut d1 = root.to_owned();
    d1.append("/assets/images");
    dirs.push(d1);
    let mut d2 = root.to_owned();
    d2.append("/assets/other");
    dirs.push(d2);
    let mut d3 = root.to_owned();
    d3.append("/backups");
    dirs.push(d3);
    let mut d4 = root.to_owned();
    d4.append("/temp");
    dirs.push(d4);
    dirs
}

/// The value of a hex digit, or -1 for any other character.
pub open spec fn hex_val(c: char) -> int {
    if '0' <= c && c <= '9' {
        c as int - 48
    } else if 'a' <= c && c <= 'f' {
        c as int - 87
    } else if 'A' <= c && c <= 'F' {
        c as int - 55
    } else {
        -1
    }
}

/// The bytes a hex text encodes: two digits per byte, high digit first. An
/// odd length or a non-hex character fails the decoding.
pub open spec fn spec_decode_hex(s: Seq<char>) -> Option<Seq<u8>>
    decreases s.len(),
{
    if s.len() % 2 != 0 {
        Option::None
    } else if s.len() == 0 {
        Option::Some(Seq::empty())
    } else {
        let hi = hex_val(s[s.len() - 2]);
        let lo = hex_val(s.last());
        match spec_decode_hex(s.drop_last().drop_last()) {
            Option::None => Option::None,
            Option::Some(prefix) => if hi >= 0 && lo >= 0 {
                Option::Some(prefix.push((hi * 16 + lo) as u8))
            } else {
                Option::None
            },
        }
    }
}

proof fn lemma_decode_hex_none(s: Seq<char>, k: int)
    requires
        s.len() % 2 == 0,
        0 <= k < s.len(),
        hex_val(s[k]) < 0,
    ensures
        spec_decode_hex(s) is None,
    decreases s.len(),
{
    if s.len() >= 2 && k < s.len() - 2 {
        assert(s.drop_last().drop_last()[k] == s[k]);
        lemma_decode_hex_none(s.drop_last().drop_last(), k);
    }
}

fn hex_val_exec(c: char) -> (r: Option<u8>)
    ensures
        r is Some <==> hex_val(c) >= 0,
        r matches Some(v) ==> v as int == hex_val(c),
{
    if '0' <= c && c <= '9' {
        Some(((c as u32) - 48) as u8)
    } else if 'a' <= c && c <= 'f' {
        Some(((c as u32) - 87) as u8)
    } else if 'A' <= c && c <= 'F' {
        Some(((c as u32) - 55) as u8)
    } else {
        None
    }
}

/// Decode a hex-encoded payload; `None` exactly when the text is not valid
/// hex of even length.
pub fn decode_hex(data: &str) -> (r: Option<Vec<u8>>)
    ensures
        r is Some <==> spec_decode_hex(data@) is Some,
        r matches Some(v) ==> Option::Some(v@) == spec_decode_hex(data@),
{
    let len: usize = data.unicode_len();
    if len % 2 != 0 {
        return None;
    }
    let mut out: Vec<u8> = Vec::new();
    let mut i: usize = 0;
    proof {
        assert(spec_decode_hex(data@.take(0)) =~= Option::Some(out@));
    }
    while i + 1 < len
        invariant
            i <= len,
            i % 2 == 0,
            len % 2 == 0,
            len == data@.len(),
            Option::Some(out@) == spec_decode_hex(data@.take(i as int)),
        decreases len - i,
    {
        let hi = hex_val_exec(data.get_char(i));
        let lo = hex_val_exec(data.get_char(i + 1));
        match (hi, lo) {
            (Some(h), Some(l)) => {
                out.push(h * 16 + l);
            },
            _ => {
                proof {
                    let k: int = if hex_val(data@[i as int]) < 0 {
                        i as int
                    } else {
                        i + 1
                    };
                    lemma_decode_hex_none(data@, k);
                }
                return None;
            },
        }
        i = i + 2;
        proof {
            let t = data@.take(i as int);
            assert(t.drop_last().drop_last() =~= data@.take(i - 2 as int));
            assert(t[t.len() - 2] == data@[i - 2 as int]);
            assert(t.last() == data@[i - 1 as int]);
            assert(Option::Some(out@) =~~= spec_decode_hex(data@.take(i as int)));
        }
    }
    proof {
        assert(data@.take(len as int) =~= data@);
    }
    Some(out)
}

/// Everything decided before any byte touches the disk: where an ingested
/// file goes and the locator the caller will keep.
pub struct IngestPlan {
    pub category: FileCategory,
    pub filename: String,
    pub locator: String,
}

/// A plan is exactly the routing, naming and locator that the declared file
/// type, source filename and ingestion time dictate.
pub open spec fn plan_wf(p: IngestPlan, ft: Seq<char>, name: Seq<char>, ts: nat) -> bool {
    &&& p.category == spec_category(ft)
    &&& p.filename@ == spec_unique_name(ts, name)
    &&& p.locator@ == spec_locator(spec_category(ft), spec_unique_name(ts, name))
}

/// Timestamps before the epoch are clamped to zero for naming.
pub open spec fn spec_clamp_ts(t: int) -> nat {
    if t < 0 {
        0
    } else {
        t as nat
    }
}

fn build_plan(name: &str, file_type: &str, now_ms: i64) -> (p: IngestPlan)
    ensures
        plan_wf(p, file_type@, name@, spec_clamp_ts(now_ms as int)),
{
    let ts: u64 = if now_ms < 0 {
        0
    } else {
        now_ms as u64
    };
    let category = category_of(file_type);
    let filename = unique_name(ts, name);
    let locator = make_locator(category, filename.as_str());
    IngestPlan { category, filename, locator }
}

/// Plan an ingestion by path at a given clock reading: fails with `NotFound`
/// when the source does not exist (the caller reports whether it does), and
/// otherwise routes by type and names the copy by timestamp and original
/// filename. Nothing is written before the plan exists.
pub fn plan_ingest_from_path_at(
    source_exists: bool,
    source_path: &str,
    file_type: &str,
    now_ms: i64,
) -> (r: Result<IngestPlan, CoreError>)
    ensures
        !source_exists ==> (r matches Err(CoreError::NotFound { path }) && path@
            == source_path@),
        source_exists ==> (r matches Ok(p) && plan_wf(
            p,
            file_type@,
            spec_source_name(source_path@),
            spec_clamp_ts(now_ms as int),
        )),
{
    if !source_exists {
        return Err(CoreError::NotFound { path: source_path.to_owned() });
    }
    let name = source_name(source_path);
    Ok(build_plan(name.as_str(), file_type, now_ms))
}

/// Plan an ingestion by path, stamped with the current wall clock.
pub fn plan_ingest_from_path(source_exists: bool, source_path: &str, file_type: &str) -> (r:
    Result<IngestPlan, CoreError>)
    ensures
        !source_exists ==> (r matches Err(CoreError::NotFound { path }) && path@
            == source_path@),
        source_exists ==> (r matches Ok(p) && exists|ts: nat|
            plan_wf(p, file_type@, spec_source_name(source_path@), ts)),
{
    let now: i64 = now_millis();
    let r = plan_ingest_from_path_at(source_exists, source_path, file_type, now);
    proof {
        if source_exists {
            assert(r matches Ok(p) && plan_wf(
                p,
                file_type@,
                spec_source_name(source_path@),
                spec_clamp_ts(now as int),
            ));
        }
    }
    r
}

/// Plan an ingestion of a hex-encoded payload at a given clock reading:
/// fails, before anything is decoded into a file, when the payload is not
/// valid hex; sanitizes the filename hint; and returns the decoded bytes
/// with the plan.
pub fn plan_ingest_from_bytes_at(
    data: &str,
    filename_hint: &str,
    file_type: &str,
    now_ms: i64,
) -> (r: Result<(IngestPlan, Vec<u8>), CoreError>)
    ensures
        spec_decode_hex(data@) is None ==> r matches Err(CoreError::InvalidInput { .. }),
        spec_decode_hex(data@) matches Some(bytes) ==> (r matches Ok(pair) && pair.1@ == bytes
            && plan_wf(
            pair.0,
            file_type@,
            spec_safe_name(filename_hint@),
            spec_clamp_ts(now_ms as int),
        )),
{
    let bytes = match decode_hex(data) {
        Some(b) => b,
        None => {
            return Err(
                CoreError::InvalidInput {
                    reason: String::from_str("payload is not valid hex"),
                },
            );
        },
    };
    let name = sanitize_filename(filename_hint);
    let plan = build_plan(name.as_str(), file_type, now_ms);
    Ok((plan, bytes))
}

/// Plan an ingestion of a hex-encoded payload, stamped with the current wall
/// clock.
pub fn plan_ingest_from_bytes(data: &str, filename_hint: &str, file_type: &str) -> (r: Result<
    (IngestPlan, Vec<u8>),
    CoreError,
>)
    ensures
        spec_decode_hex(data@) is None ==> r matches Err(CoreError::InvalidInput { .. }),
        spec_decode_hex(data@) matches Some(bytes) ==> (r matches Ok(pair) && pair.1@ == bytes
            && exists|ts: nat| plan_wf(pair.0, file_type@, spec_safe_name(filename_hint@), ts)),
{
    let now: i64 = now_millis();
    let r = plan_ingest_from_bytes_at(data, filename_hint, file_type, now);
    proof {
        match spec_decode_hex(data@) {
            Option::Some(bytes) => {
                assert(r matches Ok(pair) && pair.1@ == bytes && plan_wf(
                    pair.0,
                    file_type@,
                    spec_safe_name(filename_hint@),
                    spec_clamp_ts(now as int),
                ));
            },
            Option::None => {},
        }
    }
    r
}

/// The locator is handed out only after the copy or write completed durably;
/// a reported input/output failure surfaces with its cause attached.
pub fn finish_ingest(plan: IngestPlan, io_error: Option<String>) -> (r: Result<String, CoreError>)
    ensures
        io_error is None ==> (r matches Ok(loc) && loc@ == plan.locator@),
        io_error matches Some(d) ==> (r matches Err(CoreError::IoFailure { op, path, detail })
            && path@ == plan.locator@ && detail@ == d@),
{
    match io_error {
        Option::None => Ok(plan.locator),
        Option::Some(d) => Err(
            CoreError::IoFailure { op: String::from_str("write"), path: plan.locator, detail: d },
        ),
    }
}

/// What deletion reports: `false`, not an error, for a locator that resolves
/// to nothing — deleting twice is safe; a failure of the removal itself
/// surfaces with its cause.
pub fn delete_outcome(locator: &str, existed: bool, remove_error: Option<String>) -> (r: Result<
    bool,
    CoreError,
>)
    ensures
        !existed ==> (r matches Ok(b) && !b),
        existed && remove_error is None ==> (r matches Ok(b) && b),
        existed ==> (remove_error matches Some(d) ==> (r matches Err(
            CoreError::IoFailure { op, path, detail },
        ) && path@ == locator@ && detail@ == d@)),
{
    if !existed {
        return Ok(false);
    }
    match remove_error {
        Option::None => Ok(true),
        Option::Some(d) => Err(
            CoreError::IoFailure {
                op: String::from_str("remove"),
                path: locator.to_owned(),
                detail: d,
            },
        ),
    }
}

/// Two ingestions of the same filename into the same category at different
/// clock readings always yield distinct locators.
pub proof fn lemma_distinct_times_distinct_locators(
    cat: FileCategory,
    name: Seq<char>,
    t1: nat,
    t2: nat,
)
    requires
        t1 != t2,
    ensures
        spec_locator(cat, spec_unique_name(t1, name)) != spec_locator(
            cat,
            spec_unique_name(t2, name),
        ),
{
    let d1 = spec_digits(t1);
    let d2 = spec_digits(t2);
    let p = spec_category_path(cat) + seq!['/'];
    let l1 = spec_locator(cat, spec_unique_name(t1, name));
    let l2 = spec_locator(cat, spec_unique_name(t2, name));
    assert(l1 =~= p + d1 + seq!['_'] + name);
    assert(l2 =~= p + d2 + seq!['_'] + name);
    if l1 == l2 {
        assert(d1.len() == d2.len());
        assert forall|k: int| 0 <= k < d1.len() implies d1[k] == d2[k] by {
            assert(l1[p.len() + k] == d1[k]);
            assert(l2[p.len() + k] == d2[k]);
        }
        assert(d1 =~= d2);
        lemma_digits_injective(t1, t2);
        assert(false);
    }
}

} // verus!
