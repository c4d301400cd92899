//! Migrations: `<version>_<name>.sql` files applied once each, in order, and
//! checked against what was applied before.
use vstd::prelude::*;
use vstd::string::{StrSliceExecFns, StringExecFns, StringSliceAdditionalSpecFns};
use vstd::utf8::encode_utf8;

use crate::error::{MigrationError, MigrationErrorKind};
use crate::lexer::is_ascii_digit;
use crate::text::chars_of;

verus! {

// -----------------------------------------------------------------------------
//                                 Filenames
// -----------------------------------------------------------------------------

/// A character that may stand in a migration's name.
pub open spec fn is_name_char(c: char) -> bool {
    ('a' <= c && c <= 'z') || c == '_'
}

/// The length of the run of ASCII digits at the start of `s`.
pub open spec fn digit_run(s: Seq<char>, i: int) -> int
    decreases s.len() - i,
{
    if 0 <= i < s.len() && is_ascii_digit(s[i]) {
        digit_run(s, i + 1)
    } else {
        i
    }
}

pub open spec fn sql_suffix() -> Seq<char> {
    seq!['.', 's', 'q', 'l']
}

/// The version and the name of a file called `<version>_<name>.sql`, where
/// the version is one or more ASCII digits and the name one or more of
/// `a`-`z` and `_`; `None` for any other filename.
pub open spec fn filename_parts(s: Seq<char>) -> Option<(Seq<char>, Seq<char>)> {
    let d = digit_run(s, 0);
    if d > 0 && d + 1 < s.len() - 4 && s[d] == '_' && s.subrange(s.len() - 4, s.len() as int)
        == sql_suffix() && (forall|k: int| d + 1 <= k < s.len() - 4 ==> is_name_char(#[trigger] s[k])) {
        Some((s.subrange(0, d), s.subrange(d + 1, s.len() - 4)))
    } else {
        None
    }
}

/// The number that the ASCII digits `s` spell in base ten.
pub open spec fn decimal_value(s: Seq<char>) -> nat
    decreases s.len(),
{
    if s.len() == 0 {
        0
    } else {
        decimal_value(s.drop_last()) * 10 + ((s.last() as nat) - ('0' as nat)) as nat
    }
}

/// `str::parse::<i64>`: on text made only of ASCII digits it returns the
/// number they spell in base ten, and fails exactly where that number exceeds
/// `i64::MAX`.
#[verifier::external_body]
fn parse_i64(s: &str) -> (r: Result<i64, std::num::ParseIntError>)
    requires
        s@.len() > 0,
        forall|k: int| 0 <= k < s@.len() ==> is_ascii_digit(#[trigger] s@[k]),
    ensures
        r is Ok <==> decimal_value(s@) <= i64::MAX,
        r matches Ok(v) ==> v == decimal_value(s@),
{
    s.parse::<i64>()
}

proof fn lemma_digit_run(s: Seq<char>, i: int)
    requires
        0 <= i <= s.len(),
    ensures
        i <= digit_run(s, i) <= s.len(),
        forall|k: int| i <= k < digit_run(s, i) ==> is_ascii_digit(#[trigger] s[k]),
    decreases s.len() - i,
{
    if i < s.len() && is_ascii_digit(s[i]) {
        lemma_digit_run(s, i + 1);
    }
}

/// The version and the name of a migration file, from its filename.
pub fn parse_filename(file_name: &str) -> (r: Result<(i64, String), MigrationErrorKind>)
    ensures
        match filename_parts(file_name@) {
            None => r matches Err(e) && e is FilenameError,
            Some((v, n)) => if decimal_value(v) <= i64::MAX {
                r matches Ok((version, name)) && version == decimal_value(v) && name@ == n
            } else {
                r matches Err(e) && e is ParseIntError
            },
        },
{
    let chars = chars_of(file_name);
    let s = chars.as_slice();
    let len = s.len();
    let mut d: usize = 0;
    while d < len && '0' <= s[d] && s[d] <= '9'
        invariant
            d <= len == s@.len(),
            digit_run(s@, 0) == digit_run(s@, d as int),
        decreases len - d,
    {
        d = d + 1;
    }
    proof {
        lemma_digit_run(s@, 0);
    }
    if d == 0 || len < 5 || d >= len - 5 || s[d] != '_' {
        return Err(MigrationErrorKind::FilenameError);
    }
    let end = len - 4;
    if !(s[end] == '.' && s[end + 1] == 's' && s[end + 2] == 'q' && s[end + 3] == 'l') {
        assert(s@.subrange(end as int, len as int)[0] == s@[end as int]);
        assert(s@.subrange(end as int, len as int)[1] == s@[end + 1]);
        assert(s@.subrange(end as int, len as int)[2] == s@[end + 2]);
        assert(s@.subrange(end as int, len as int)[3] == s@[end + 3]);
        return Err(MigrationErrorKind::FilenameError);
    }
    assert(s@.subrange(end as int, len as int) =~= sql_suffix());
    let mut k = d + 1;
    while k < end
        invariant
            d + 1 <= k <= end < len == s@.len(),
            end == len - 4,
            s@ == file_name@,
            d > 0,
            digit_run(s@, 0) == d,
            s@[d as int] == '_',
            s@.subrange(end as int, len as int) == sql_suffix(),
            forall|m: int| d + 1 <= m < k ==> is_name_char(#[trigger] s@[m]),
        decreases end - k,
    {
        if !(('a' <= s[k] && s[k] <= 'z') || s[k] == '_') {
            assert(!is_name_char(s@[k as int]));
            return Err(MigrationErrorKind::FilenameError);
        }
        k = k + 1;
    }
    let version_text = file_name.substring_char(0, d);
    let version = match parse_i64(version_text) {
        Ok(v) => v,
        Err(e) => {
            return Err(MigrationErrorKind::ParseIntError(e));
        },
    };
    let name = String::from_str(file_name.substring_char(d + 1, end));
    Ok((version, name))
}

// -----------------------------------------------------------------------------
//                                 Checksums
// -----------------------------------------------------------------------------

/// The SHA-256 digest of a byte string.
pub uninterp spec fn sha256_spec(data: Seq<u8>) -> Seq<u8>;

/// `sha2::Sha256::digest`: the SHA-256 digest of `data`, which is 32 bytes
/// long. What those bytes are is named, not stated.
#[verifier::external_body]
fn sha256_digest(data: &[u8]) -> (r: Vec<u8>)
    ensures
        r@ == sha256_spec(data@),
        r@.len() == 32,
{
    <sha2::Sha256 as sha2::Digest>::digest(data).to_vec()
}

/// The lowercase hexadecimal digit for `n < 16`.
pub open spec fn hex_digit(n: u8) -> char {
    if n < 10 {
        (n + '0' as u8) as char
    } else {
        (n - 10 + 'a' as u8) as char
    }
}

/// Two lowercase hexadecimal digits per byte, high nibble first.
pub open spec fn hex_lower(data: Seq<u8>) -> Seq<char>
    decreases data.len(),
{
    if data.len() == 0 {
        seq![]
    } else {
        hex_lower(data.drop_last()) + seq![
            hex_digit(data.last() / 16),
            hex_digit(data.last() % 16),
        ]
    }
}

/// `base16ct::lower::encode_string`: each byte as two lowercase hexadecimal
/// digits, high nibble first. It panics on inputs longer than
/// `usize::MAX / 2`, which `requires` leaves out.
#[verifier::external_body]
fn hex_encode(data: &[u8]) -> (r: String)
    requires
        data@.len() <= usize::MAX / 2,
    ensures
        r@ == hex_lower(data@),
{
    base16ct::lower::encode_string(data)
}

/// Hexadecimal text is two digits per byte.
pub proof fn lemma_hex_lower_len(data: Seq<u8>)
    ensures
        hex_lower(data).len() == 2 * data.len(),
    decreases data.len(),
{
    if data.len() > 0 {
        lemma_hex_lower_len(data.drop_last());
    }
}

/// The value of a lowercase hexadecimal digit.
pub open spec fn hex_value(c: char) -> int {
    if '0' <= c && c <= '9' {
        c as int - '0' as int
    } else {
        c as int - 'a' as int + 10
    }
}

/// A lowercase hexadecimal digit.
pub open spec fn is_hex_lower(c: char) -> bool {
    ('0' <= c && c <= '9') || ('a' <= c && c <= 'f')
}

/// Hexadecimal text reads back as the bytes it was made of: it holds two
/// lowercase hexadecimal digits per byte, the high nibble first.
pub proof fn lemma_hex_lower_reads_back(data: Seq<u8>)
    ensures
        hex_lower(data).len() == 2 * data.len(),
        forall|k: int|
            0 <= k < data.len() ==> {
                &&& is_hex_lower(#[trigger] hex_lower(data)[2 * k])
                &&& is_hex_lower(hex_lower(data)[2 * k + 1])
                &&& hex_value(hex_lower(data)[2 * k]) * 16 + hex_value(hex_lower(data)[2 * k + 1])
                    == data[k]
            },
    decreases data.len(),
{
    if data.len() > 0 {
        let init = data.drop_last();
        lemma_hex_lower_reads_back(init);
        let b = data.last();
        let hi = hex_digit(b / 16);
        let lo = hex_digit(b % 16);
        let h = hex_lower(data);
        assert(h == hex_lower(init) + seq![hi, lo]);
        assert(is_hex_lower(hi) && hex_value(hi) == b / 16);
        assert(is_hex_lower(lo) && hex_value(lo) == b % 16);
        assert forall|k: int| 0 <= k < data.len() implies {
            &&& is_hex_lower(#[trigger] h[2 * k])
            &&& is_hex_lower(h[2 * k + 1])
            &&& hex_value(h[2 * k]) * 16 + hex_value(h[2 * k + 1]) == data[k]
        } by {
            if k < init.len() {
                assert(h[2 * k] == hex_lower(init)[2 * k]);
                assert(h[2 * k + 1] == hex_lower(init)[2 * k + 1]);
                assert(data[k] == init[k]);
            } else {
                assert(h[2 * k] == hi);
                assert(h[2 * k + 1] == lo);
                assert(data[k] == b);
            }
        }
    }
}

/// The checksum is taken over the whole of a migration's text: it is the
/// hexadecimal SHA-256 digest of all of its UTF-8 bytes.
pub proof fn lemma_checksum_digests_whole_text(sql: Seq<char>)
    ensures
        checksum_spec(sql) == hex_lower(sha256_spec(encode_utf8(sql))),
{
}

/// The checksum a migration is recorded with: the lowercase hexadecimal
/// SHA-256 digest of its UTF-8 text.
pub open spec fn checksum_spec(sql: Seq<char>) -> Seq<char> {
    hex_lower(sha256_spec(encode_utf8(sql)))
}

/// The checksum of a migration's text.
pub fn checksum(sql: &str) -> (r: String)
    ensures
        r@ == checksum_spec(sql@),
        r@ == hex_lower(sha256_spec(sql.spec_bytes())),
        r@.len() == 64,
{
    let digest = sha256_digest(sql.as_bytes());
    proof {
        lemma_hex_lower_len(digest@);
    }
    hex_encode(digest.as_slice())
}

// -----------------------------------------------------------------------------
//                                Migrations
// -----------------------------------------------------------------------------

#[derive(Debug)]
pub struct Migration {
    pub checksum: String,
    pub name: String,
    pub sql: String,
    pub version: i64,
}

impl Migration {
    /// The migration in the file called `file_name`, whose text is
    /// `contents`, or what was read in its place.
    ///
    /// The filename is checked first: a file that is misnamed is reported as
    /// such whether or not it could be read.
    pub fn new(file_name: &str, contents: Result<String, std::io::Error>) -> (r: Result<
        Migration,
        MigrationError,
    >)
        ensures
            match r {
                Ok(m) => {
                    &&& filename_parts(file_name@) matches Some((v, n))
                    &&& m.version == decimal_value(v)
                    &&& m.name@ == n
                    &&& contents matches Ok(sql) && m.sql == sql
                    &&& m.checksum@ == checksum_spec(m.sql@)
                    &&& m.checksum@ == hex_lower(sha256_spec(encode_utf8(m.sql@)))
                    &&& m.checksum@.len() == 64
                },
                Err(e) => {
                    &&& e.filename@ == file_name@
                    &&& match filename_parts(file_name@) {
                        None => e.error is FilenameError,
                        Some((v, n)) => if decimal_value(v) > i64::MAX {
                            e.error is ParseIntError
                        } else {
                            contents is Err && e.error is IOError
                        },
                    }
                },
            },
    {
        match parse_filename(file_name) {
            Err(error) => Err(MigrationError { error, filename: String::from_str(file_name) }),
            Ok((version, name)) => match contents {
                Err(e) => Err(
                    MigrationError {
                        error: MigrationErrorKind::IOError(e),
                        filename: String::from_str(file_name),
                    },
                ),
                Ok(sql) => {
                    let checksum = checksum(sql.as_str());
                    Ok(Migration { checksum, name, sql, version })
                },
            },
        }
    }
}

// -----------------------------------------------------------------------------
//                                 Migrator
// -----------------------------------------------------------------------------

/// A migration as the `migrations` table records it.
pub struct AppliedMigration {
    pub checksum: String,
    pub version: i64,
}

pub struct Migrator {
    pub migrations: Vec<Migration>,
}

/// The position of the first applied migration with the given version.
pub open spec fn find_applied(applied: Seq<AppliedMigration>, version: i64, j: int) -> Option<int>
    decreases applied.len() - j,
{
    if j < 0 || j >= applied.len() {
        None
    } else if applied[j].version == version {
        Some(j)
    } else {
        find_applied(applied, version, j + 1)
    }
}

/// What a run does from the `i`th migration on, given what was applied
/// before: the positions of the migrations to apply, in order, and the
/// position of the migration whose checksum differs from the one that was
/// applied, which stops the run.
pub open spec fn plan_from(migrations: Seq<Migration>, applied: Seq<AppliedMigration>, i: int) -> (
    Seq<int>,
    Option<int>,
)
    decreases migrations.len() - i,
{
    if i < 0 || i >= migrations.len() {
        (seq![], None)
    } else {
        match find_applied(applied, migrations[i].version, 0) {
            None => {
                let (rest, stop) = plan_from(migrations, applied, i + 1);
                (seq![i] + rest, stop)
            },
            Some(j) => if applied[j].checksum@ != migrations[i].checksum@ {
                (seq![], Some(i))
            } else {
                plan_from(migrations, applied, i + 1)
            },
        }
    }
}

pub open spec fn indices_view(v: Seq<usize>) -> Seq<int> {
    v.map_values(|k: usize| k as int)
}

impl Migrator {
    pub fn new(migrations: Vec<Migration>) -> (r: Self)
        ensures
            r.migrations == migrations,
    {
        Migrator { migrations }
    }

    fn find(applied: &Vec<AppliedMigration>, version: i64) -> (r: Option<usize>)
        ensures
            match r {
                Some(j) => find_applied(applied@, version, 0) == Some(j as int) && j
                    < applied@.len(),
                None => find_applied(applied@, version, 0) is None,
            },
    {
        let mut j: usize = 0;
        while j < applied.len()
            invariant
                j <= applied@.len(),
                find_applied(applied@, version, 0) == find_applied(applied@, version, j as int),
            decreases applied@.len() - j,
        {
            if applied[j].version == version {
                return Some(j);
            }
            j = j + 1;
        }
        None
    }

    /// What applying the migrations does, given those that were applied
    /// before: the positions of the migrations to apply, in order, and the
    /// error that stops the run after them, where an applied migration's
    /// checksum differs from the file's.
    pub fn plan(&self, applied: &Vec<AppliedMigration>) -> (r: (Vec<usize>, Option<MigrationError>))
        ensures
            indices_view(r.0@) == plan_from(self.migrations@, applied@, 0).0,
            match plan_from(self.migrations@, applied@, 0).1 {
                None => r.1 is None,
                Some(i) => r.1 matches Some(e) && e.error is ChecksumError && e.filename@
                    == self.migrations@[i].name@,
            },
    {
        let migs = &self.migrations;
        let mut steps: Vec<usize> = Vec::new();
        let mut i: usize = 0;
        while i < migs.len()
            invariant
                i <= migs@.len(),
                migs@ == self.migrations@,
                plan_from(migs@, applied@, 0).0 == indices_view(steps@) + plan_from(
                    migs@,
                    applied@,
                    i as int,
                ).0,
                plan_from(migs@, applied@, 0).1 == plan_from(migs@, applied@, i as int).1,
            decreases migs@.len() - i,
        {
            let ghost before = indices_view(steps@);
            match Migrator::find(applied, migs[i].version) {
                None => {
                    steps.push(i);
                    assert(indices_view(steps@) =~= before.push(i as int));
                    assert(before + plan_from(migs@, applied@, i as int).0 =~= indices_view(steps@)
                        + plan_from(migs@, applied@, i + 1).0);
                },
                Some(j) => {
                    let same = applied[j].checksum.eq(&migs[i].checksum);
                    if !same {
                        assert(plan_from(migs@, applied@, i as int) == (
                            Seq::<int>::empty(),
                            Some(i as int),
                        ));
                        assert(indices_view(steps@) + plan_from(migs@, applied@, i as int).0
                            =~= indices_view(steps@));
                        assert(plan_from(migs@, applied@, 0).1 == Some(i as int));
                        let error = MigrationError {
                            error: MigrationErrorKind::ChecksumError,
                            filename: migs[i].name.clone(),
                        };
                        return (steps, Some(error));
                    }
                },
            }
            i = i + 1;
        }
        assert(indices_view(steps@) =~= indices_view(steps@) + seq![]);
        (steps, None)
    }
}

// -----------------------------------------------------------------------------
//                        What every plan guarantees
// -----------------------------------------------------------------------------

/// Whether the migration with the given version was applied before.
pub open spec fn is_applied(applied: Seq<AppliedMigration>, version: i64) -> bool {
    find_applied(applied, version, 0) is Some
}

proof fn lemma_plan_from_pending(migrations: Seq<Migration>, applied: Seq<AppliedMigration>, i: int)
    requires
        0 <= i,
    ensures
        ({
            let steps = plan_from(migrations, applied, i).0;
            &&& forall|k: int|
                0 <= k < steps.len() ==> i <= #[trigger] steps[k] < migrations.len()
                    && !is_applied(applied, migrations[steps[k]].version)
            &&& forall|k: int, m: int| 0 <= k < m < steps.len() ==> #[trigger] steps[k] < #[trigger] steps[m]
        }),
        plan_from(migrations, applied, i).1 matches Some(stop) ==> i <= stop < migrations.len(),
    decreases migrations.len() - i,
{
    if i < migrations.len() {
        lemma_plan_from_pending(migrations, applied, i + 1);
        let rest = plan_from(migrations, applied, i + 1).0;
        if find_applied(applied, migrations[i].version, 0) is None {
            let steps = seq![i] + rest;
            assert forall|k: int| 0 <= k < steps.len() implies i <= #[trigger] steps[k]
                < migrations.len() && !is_applied(applied, migrations[steps[k]].version) by {
                if k > 0 {
                    assert(steps[k] == rest[k - 1]);
                }
            }
            assert forall|k: int, m: int| 0 <= k < m < steps.len() implies #[trigger] steps[k]
                < #[trigger] steps[m] by {
                assert(steps[m] == rest[m - 1]);
                if k > 0 {
                    assert(steps[k] == rest[k - 1]);
                }
            }
        }
    }
}

/// A run applies only migrations that were not applied before, each once,
/// in the order they are listed; a checksum mismatch names a listed one.
pub proof fn lemma_plan_applies_pending_once(
    migrations: Seq<Migration>,
    applied: Seq<AppliedMigration>,
)
    ensures
        ({
            let steps = plan_from(migrations, applied, 0).0;
            &&& forall|k: int|
                0 <= k < steps.len() ==> 0 <= #[trigger] steps[k] < migrations.len()
                    && !is_applied(applied, migrations[steps[k]].version)
            &&& forall|k: int, m: int| 0 <= k < m < steps.len() ==> #[trigger] steps[k] < #[trigger] steps[m]
        }),
        plan_from(migrations, applied, 0).1 matches Some(stop) ==> 0 <= stop < migrations.len(),
{
    lemma_plan_from_pending(migrations, applied, 0);
}

/// Some row of `applied` carries the version `v`.
pub open spec fn has_row(applied: Seq<AppliedMigration>, v: i64) -> bool {
    exists|j: int| 0 <= j < applied.len() && #[trigger] applied[j].version == v
}

/// `applied[j]` is the first row that carries the version `v`.
pub open spec fn first_row(applied: Seq<AppliedMigration>, v: i64, j: int) -> bool {
    &&& 0 <= j < applied.len()
    &&& applied[j].version == v
    &&& forall|j2: int| 0 <= j2 < j ==> #[trigger] applied[j2].version != v
}

/// `m` was applied before, and its first row records another checksum.
pub open spec fn checksum_changed(applied: Seq<AppliedMigration>, m: Migration) -> bool {
    exists|j: int| #[trigger] first_row(applied, m.version, j) && applied[j].checksum@ != m.checksum@
}

proof fn lemma_find_applied_rows(applied: Seq<AppliedMigration>, v: i64, j0: int)
    requires
        0 <= j0,
    ensures
        match find_applied(applied, v, j0) {
            Some(j) => j0 <= j < applied.len() && applied[j].version == v && forall|j2: int|
                j0 <= j2 < j ==> #[trigger] applied[j2].version != v,
            None => forall|j2: int| j0 <= j2 < applied.len() ==> #[trigger] applied[j2].version
                != v,
        },
    decreases applied.len() - j0,
{
    if j0 < applied.len() && applied[j0].version != v {
        lemma_find_applied_rows(applied, v, j0 + 1);
    }
}

proof fn lemma_find_applied_first(applied: Seq<AppliedMigration>, v: i64)
    ensures
        match find_applied(applied, v, 0) {
            Some(j) => first_row(applied, v, j) && forall|j2: int| #[trigger] first_row(
                applied,
                v,
                j2,
            ) ==> j2 == j,
            None => !has_row(applied, v),
        },
{
    lemma_find_applied_rows(applied, v, 0);
    match find_applied(applied, v, 0) {
        Some(j) => {
            assert forall|j2: int| #[trigger] first_row(applied, v, j2) implies j2 == j by {
                if j2 < j {
                    assert(applied[j2].version != v);
                } else if j < j2 {
                    assert(applied[j].version != v);
                }
            }
        },
        None => {
            if has_row(applied, v) {
                let j = choose|j: int| 0 <= j < applied.len() && #[trigger] applied[j].version == v;
                assert(applied[j].version != v);
            }
        },
    }
}

proof fn lemma_plan_from_complete(migrations: Seq<Migration>, applied: Seq<AppliedMigration>, i: int)
    requires
        0 <= i,
    ensures
        ({
            let (steps, stop) = plan_from(migrations, applied, i);
            &&& match stop {
                None => forall|k: int|
                    i <= k < migrations.len() ==> !checksum_changed(applied, #[trigger] migrations[k]),
                Some(m) => i <= m < migrations.len() && checksum_changed(applied, migrations[m])
                    && forall|k: int|
                    i <= k < m ==> !checksum_changed(applied, #[trigger] migrations[k]),
            }
            &&& forall|k: int|
                i <= k < migrations.len() && !has_row(applied, #[trigger] migrations[k].version) && (
                stop matches Some(m) ==> k < m) ==> steps.contains(k)
        }),
    decreases migrations.len() - i,
{
    if i < migrations.len() {
        lemma_plan_from_complete(migrations, applied, i + 1);
        let mi = migrations[i];
        lemma_find_applied_first(applied, mi.version);
        let (rest, stop) = plan_from(migrations, applied, i + 1);
        match find_applied(applied, mi.version, 0) {
            None => {
                assert(!checksum_changed(applied, mi)) by {
                    if checksum_changed(applied, mi) {
                        let j = choose|j: int| #[trigger] first_row(applied, mi.version, j)
                            && applied[j].checksum@ != mi.checksum@;
                        assert(applied[j].version == mi.version);
                    }
                }
                let steps = seq![i] + rest;
                assert(steps[0] == i);
                assert forall|k: int|
                    i <= k < migrations.len() && !has_row(applied, #[trigger] migrations[k].version)
                        && (stop matches Some(m) ==> k < m) implies steps.contains(k) by {
                    if k == i {
                        assert(steps[0] == k);
                    } else {
                        assert(rest.contains(k));
                        let x = choose|x: int| 0 <= x < rest.len() && rest[x] == k;
                        assert(steps[x + 1] == k);
                    }
                }
            },
            Some(j) => {
                assert(first_row(applied, mi.version, j));
                if applied[j].checksum@ != mi.checksum@ {
                    assert(checksum_changed(applied, mi));
                    assert forall|k: int|
                        i <= k < migrations.len() && !has_row(applied, #[trigger] migrations[k].version)
                            && (Some(i) matches Some(m) ==> k < m) implies Seq::<int>::empty().contains(k) by {
                    }
                } else {
                    assert(!checksum_changed(applied, mi)) by {
                        if checksum_changed(applied, mi) {
                            let j2 = choose|j2: int| #[trigger] first_row(applied, mi.version, j2)
                                && applied[j2].checksum@ != mi.checksum@;
                            assert(j2 == j);
                        }
                    }
                    assert(has_row(applied, mi.version)) by {
                        assert(applied[j].version == mi.version);
                    }
                }
            },
        }
    }
}

/// A run applies every migration that was not applied before, up to the
/// first migration whose checksum changed, and it stops exactly there: at
/// the first listed migration whose first applied row records another
/// checksum, or nowhere where there is none. With nothing applied, every
/// migration is applied.
pub proof fn lemma_plan_applies_every_pending(
    migrations: Seq<Migration>,
    applied: Seq<AppliedMigration>,
)
    ensures
        ({
            let (steps, stop) = plan_from(migrations, applied, 0);
            &&& match stop {
                None => forall|k: int|
                    0 <= k < migrations.len() ==> !checksum_changed(applied, #[trigger] migrations[k]),
                Some(m) => 0 <= m < migrations.len() && checksum_changed(applied, migrations[m])
                    && forall|k: int|
                    0 <= k < m ==> !checksum_changed(applied, #[trigger] migrations[k]),
            }
            &&& forall|k: int|
                0 <= k < migrations.len() && !has_row(applied, #[trigger] migrations[k].version) && (
                stop matches Some(m) ==> k < m) ==> steps.contains(k)
        }),
        applied.len() == 0 ==> plan_from(migrations, applied, 0) == (
            Seq::new(migrations.len(), |k: int| k),
            None::<int>,
        ),
{
    lemma_plan_from_complete(migrations, applied, 0);
    lemma_plan_from_pending(migrations, applied, 0);
    if applied.len() == 0 {
        let (steps, stop) = plan_from(migrations, applied, 0);
        assert forall|k: int| 0 <= k < migrations.len() implies !checksum_changed(
            applied,
            #[trigger] migrations[k],
        ) by {
            if checksum_changed(applied, migrations[k]) {
                let j = choose|j: int| #[trigger] first_row(applied, migrations[k].version, j)
                    && applied[j].checksum@ != migrations[k].checksum@;
            }
        }
        assert(stop is None);
        lemma_steps_all(migrations, applied, steps);
    }
}

/// Steps that are increasing, within range, and hold every position are
/// exactly the positions in order.
proof fn lemma_steps_all(migrations: Seq<Migration>, applied: Seq<AppliedMigration>, steps: Seq<int>)
    requires
        applied.len() == 0,
        steps == plan_from(migrations, applied, 0).0,
        forall|k: int| 0 <= k < steps.len() ==> 0 <= #[trigger] steps[k] < migrations.len(),
        forall|k: int, m: int| 0 <= k < m < steps.len() ==> #[trigger] steps[k] < #[trigger] steps[m],
        forall|k: int|
            0 <= k < migrations.len() && !has_row(applied, #[trigger] migrations[k].version)
                ==> steps.contains(k),
    ensures
        steps == Seq::new(migrations.len(), |k: int| k),
{
    let n = migrations.len() as int;
    assert forall|k: int| 0 <= k < n implies steps.contains(k) by {
        assert(!has_row(applied, migrations[k].version));
    }
    // every position appears, the steps are strictly increasing within [0, n)
    lemma_increasing_cover(steps, n);
}

proof fn lemma_increasing_cover(steps: Seq<int>, n: int)
    requires
        0 <= n,
        forall|k: int| 0 <= k < steps.len() ==> 0 <= #[trigger] steps[k] < n,
        forall|k: int, m: int| 0 <= k < m < steps.len() ==> #[trigger] steps[k] < #[trigger] steps[m],
        forall|k: int| 0 <= k < n ==> steps.contains(k),
    ensures
        steps == Seq::new(n as nat, |k: int| k),
    decreases n,
{
    if n == 0 {
        if steps.len() > 0 {
            assert(0 <= steps[0] < n);
        }
        assert(steps =~= Seq::new(0, |k: int| k));
    } else {
        // the last position n - 1 is in steps, and it is the largest, so it comes last
        assert(steps.contains(n - 1));
        let x = choose|x: int| 0 <= x < steps.len() && steps[x] == n - 1;
        if x < steps.len() - 1 {
            assert(steps[x] < steps[x + 1]);
        }
        assert(x == steps.len() - 1);
        let init = steps.drop_last();
        assert forall|k: int| 0 <= k < init.len() implies 0 <= #[trigger] init[k] < n - 1 by {
            assert(init[k] == steps[k]);
            assert(steps[k] < steps[x]);
        }
        assert forall|k: int| 0 <= k < n - 1 implies init.contains(k) by {
            assert(steps.contains(k));
            let y = choose|y: int| 0 <= y < steps.len() && steps[y] == k;
            assert(y != x);
            assert(init[y] == k);
        }
        assert forall|k: int, m: int| 0 <= k < m < init.len() implies #[trigger] init[k] < #[trigger] init[m] by {
            assert(init[k] == steps[k]);
            assert(init[m] == steps[m]);
        }
        lemma_increasing_cover(init, n - 1);
        assert(steps =~= init.push(n - 1));
        assert(steps =~= Seq::new(n as nat, |k: int| k));
    }
}

/// Whether each migration was applied before with the checksum it has now.
pub open spec fn all_applied(migrations: Seq<Migration>, applied: Seq<AppliedMigration>) -> bool {
    forall|i: int|
        0 <= i < migrations.len() ==> (#[trigger] find_applied(
            applied,
            migrations[i].version,
            0,
        ) matches Some(j) && applied[j].checksum@ == migrations[i].checksum@)
}

proof fn lemma_plan_from_all_applied(
    migrations: Seq<Migration>,
    applied: Seq<AppliedMigration>,
    i: int,
)
    requires
        0 <= i,
        all_applied(migrations, applied),
    ensures
        plan_from(migrations, applied, i).0 == Seq::<int>::empty(),
        plan_from(migrations, applied, i).1 is None,
    decreases migrations.len() - i,
{
    if i < migrations.len() {
        assert(find_applied(applied, migrations[i].version, 0) is Some);
        lemma_plan_from_all_applied(migrations, applied, i + 1);
    }
}

/// Running the migrations again once they are all applied does nothing.
pub proof fn lemma_plan_after_all_applied(
    migrations: Seq<Migration>,
    applied: Seq<AppliedMigration>,
)
    requires
        all_applied(migrations, applied),
    ensures
        plan_from(migrations, applied, 0).0 == Seq::<int>::empty(),
        plan_from(migrations, applied, 0).1 is None,
{
    lemma_plan_from_all_applied(migrations, applied, 0);
}

proof fn lemma_digit_run_concat(d: Seq<char>, rest: Seq<char>, i: int)
    requires
        0 <= i <= d.len(),
        forall|k: int| 0 <= k < d.len() ==> is_ascii_digit(#[trigger] d[k]),
        rest.len() > 0,
        !is_ascii_digit(rest[0]),
    ensures
        digit_run(d + rest, i) == d.len(),
    decreases d.len() - i,
{
    if i < d.len() {
        assert((d + rest)[i] == d[i]);
        lemma_digit_run_concat(d, rest, i + 1);
    } else {
        assert((d + rest)[i] == rest[0]);
    }
}

/// Every `<version>_<name>.sql` filename is accepted, and reads back as the
/// version and the name it was made of.
pub proof fn lemma_filename_round_trip(version: Seq<char>, name: Seq<char>)
    requires
        version.len() > 0,
        forall|k: int| 0 <= k < version.len() ==> is_ascii_digit(#[trigger] version[k]),
        name.len() > 0,
        forall|k: int| 0 <= k < name.len() ==> is_name_char(#[trigger] name[k]),
    ensures
        filename_parts(version + seq!['_'] + name + sql_suffix()) == Some((version, name)),
{
    let rest = seq!['_'] + name + sql_suffix();
    let s = version + seq!['_'] + name + sql_suffix();
    assert(s =~= version + rest);
    assert(rest[0] == '_');
    lemma_digit_run_concat(version, rest, 0);
    let d = version.len() as int;
    assert(s[d] == '_');
    assert(s.subrange(s.len() - 4, s.len() as int) =~= sql_suffix());
    assert forall|k: int| d + 1 <= k < s.len() - 4 implies is_name_char(#[trigger] s[k]) by {
        assert(s[k] == name[k - d - 1]);
    }
    assert(s.subrange(0, d) =~= version);
    assert(s.subrange(d + 1, s.len() - 4) =~= name);
}

// -----------------------------------------------------------------------------
//                             Ordering migrations
// -----------------------------------------------------------------------------

/// Where a migration with version `v` goes among `t`: after every migration
/// whose version is not greater, reading from `k`.
pub open spec fn insert_pos(t: Seq<Migration>, v: i64, k: int) -> int
    decreases t.len() - k,
{
    if k < 0 || k >= t.len() {
        t.len() as int
    } else if t[k].version > v {
        k
    } else {
        insert_pos(t, v, k + 1)
    }
}

/// `s` ordered by version, migrations of equal version kept in the order they
/// came in.
pub open spec fn sort_spec(s: Seq<Migration>) -> Seq<Migration>
    decreases s.len(),
{
    if s.len() == 0 {
        s
    } else {
        let t = sort_spec(s.drop_last());
        t.insert(insert_pos(t, s.last().version, 0), s.last())
    }
}

pub open spec fn sorted_by_version(s: Seq<Migration>) -> bool {
    forall|a: int, b: int| 0 <= a < b < s.len() ==> #[trigger] s[a].version <= #[trigger] s[b].version
}

proof fn lemma_insert_pos(t: Seq<Migration>, v: i64, k: int)
    requires
        0 <= k <= t.len(),
    ensures
        k <= insert_pos(t, v, k) <= t.len(),
        forall|m: int| k <= m < insert_pos(t, v, k) ==> (#[trigger] t[m]).version <= v,
        insert_pos(t, v, k) < t.len() ==> t[insert_pos(t, v, k)].version > v,
    decreases t.len() - k,
{
    if k < t.len() && t[k].version <= v {
        lemma_insert_pos(t, v, k + 1);
    }
}

proof fn lemma_sort_spec(s: Seq<Migration>)
    ensures
        sorted_by_version(sort_spec(s)),
        sort_spec(s).len() == s.len(),
        sort_spec(s).to_multiset() == s.to_multiset(),
    decreases s.len(),
{
    broadcast use vstd::seq_lib::to_multiset_insert, vstd::seq_lib::to_multiset_build;

    if s.len() > 0 {
        let t = sort_spec(s.drop_last());
        lemma_sort_spec(s.drop_last());
        let x = s.last();
        let p = insert_pos(t, x.version, 0);
        lemma_insert_pos(t, x.version, 0);
        let r = t.insert(p, x);
        t.insert_ensures(p, x);
        assert forall|a: int, b: int| 0 <= a < b < r.len() implies #[trigger] r[a].version
            <= #[trigger] r[b].version by {
            if b < p {
                assert(r[a] == t[a] && r[b] == t[b]);
            } else if b == p {
                assert(r[a] == t[a]);
            } else if a < p {
                assert(r[a] == t[a] && r[b] == t[b - 1]);
                assert(t[a].version <= x.version);
                assert(t[p].version > x.version);
                if p < b - 1 {
                    assert(t[p].version <= t[b - 1].version);
                }
            } else if a == p {
                assert(r[b] == t[b - 1]);
                assert(t[p].version > x.version);
                if p < b - 1 {
                    assert(t[p].version <= t[b - 1].version);
                }
            } else {
                assert(r[a] == t[a - 1] && r[b] == t[b - 1]);
            }
        }
        assert(s =~= s.drop_last().push(x));
    }
}

/// Ordering migrations by version puts them in ascending order of version
/// and keeps every one of them.
pub proof fn lemma_sort_migrations(s: Seq<Migration>)
    ensures
        sorted_by_version(sort_spec(s)),
        sort_spec(s).to_multiset() == s.to_multiset(),
{
    lemma_sort_spec(s);
}

/// The migrations ordered by version; those of equal version keep the order
/// they came in.
pub fn sort_migrations(migrations: Vec<Migration>) -> (r: Vec<Migration>)
    ensures
        r@ == sort_spec(migrations@),
        sorted_by_version(r@),
{
    proof {
        lemma_sort_spec(migrations@);
    }
    let ghost orig = migrations@;
    let mut input = migrations;
    let mut out: Vec<Migration> = Vec::new();
    let mut i: usize = 0;
    let n = input.len();
    assert(orig.take(0) =~= Seq::<Migration>::empty());
    while input.len() > 0
        invariant
            n == orig.len(),
            i <= n,
            input@ == orig.skip(i as int),
            out@ == sort_spec(orig.take(i as int)),
        decreases input@.len(),
    {
        let m = input.remove(0);
        assert(m == orig[i as int]);
        let ghost t = out@;
        let mut p: usize = 0;
        while p < out.len() && out[p].version <= m.version
            invariant
                p <= out@.len(),
                out@ == t,
                insert_pos(t, m.version, 0) == insert_pos(t, m.version, p as int),
            decreases out@.len() - p,
        {
            p = p + 1;
        }
        out.insert(p, m);
        i = i + 1;
        assert(orig.take(i as int).drop_last() =~= orig.take(i - 1));
        assert(input@ =~= orig.skip(i as int));
    }
    assert(orig.take(i as int) =~= orig);
    out
}

} // verus!
