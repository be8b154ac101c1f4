//! Backups: one or more secrets, each encrypted under its own passphrase,
//! split into a set of shares of which a threshold number restore them all.
use vstd::prelude::*;
use crate::crypto::{
    lemma_payload_opens, open_value, opens_to, payload_of, random_bytes, seal_value, MAX_INPUT_LEN,
    NONCE_LEN, SALT_LEN, TAG_LEN,
};
use crate::shamir::{
    column, combine, lemma_single_share_round_trip, share_fragment, split, value_at_zero,
};

verus! {

/// One value to protect, with the passphrase that protects it.
#[derive(Clone, Debug, PartialEq, Eq)]
pub struct Secret {
    pub value: Vec<u8>,
    pub passphrase: Vec<u8>,
}

/// How many shares a backup has, and how many of them restore it.
#[derive(Clone, Copy, Debug, PartialEq, Eq, Structural)]
pub struct BackupConfig {
    pub required_shares: u8,
    pub num_shares: u8,
}

/// One share of a backup: its number (`1 ..= num_shares`), the scheme it
/// belongs to, and its fragment of each secret's protected payload.
#[derive(Clone, Debug, PartialEq, Eq)]
pub struct BackupShare {
    pub number: u8,
    pub required_shares: u8,
    pub num_shares: u8,
    pub fragments: Vec<Vec<u8>>,
}

/// Why a backup could not be created or restored.
#[derive(Clone, Copy, Debug, PartialEq, Eq, Structural)]
pub enum BackupError {
    InvalidConfig,
    EmptyInput,
    InsufficientShares,
    InconsistentShares,
    AuthenticationFailure,
    EncodingFailure,
    RandomSourceFailure,
}

/// The random material that protects one secret: the salt of its key, the
/// nonce of its encryption, and for each payload byte the higher
/// coefficients of the polynomial that hides it.
#[derive(Clone, Debug, PartialEq, Eq)]
pub struct SecretRandomness {
    pub salt: Vec<u8>,
    pub nonce: Vec<u8>,
    pub coeffs: Vec<Vec<u8>>,
}

/// A single share holding everything, or a threshold of at least two out of
/// at most 255 shares.
pub open spec fn valid_config(required: u8, total: u8) -> bool {
    (required == 1 && total == 1) || (2 <= required && required <= total)
}

/// Every secret has a value and a passphrase, within the length that the
/// key derivation and the cipher take, and there is at least one secret.
pub open spec fn secrets_ok(secrets: Seq<Secret>) -> bool {
    &&& secrets.len() > 0
    &&& forall|j: int| 0 <= j < secrets.len() ==> #[trigger] secret_ok(secrets[j])
}

/// The secret has a value and a passphrase.
pub open spec fn secret_ok(s: Secret) -> bool {
    &&& s.value@.len() > 0
    &&& s.passphrase@.len() > 0
}

/// Each passphrase and value is short enough for the key derivation and the
/// cipher.
pub open spec fn secrets_in_limits(secrets: Seq<Secret>) -> bool {
    forall|j: int|
        0 <= j < secrets.len() ==> (#[trigger] secrets[j]).value@.len() <= MAX_INPUT_LEN
            && secrets[j].passphrase@.len() <= MAX_INPUT_LEN
}

/// Length of the protected payload of a value of `n` bytes.
pub open spec fn payload_len(n: nat) -> nat {
    (SALT_LEN + NONCE_LEN + n + TAG_LEN) as nat
}

/// `rand` has the shape that protecting `secret` with `required` shares needs.
pub open spec fn randomness_fits(secret: Secret, rand: SecretRandomness, required: u8) -> bool {
    &&& rand.salt@.len() == SALT_LEN
    &&& rand.nonce@.len() == NONCE_LEN
    &&& rand.coeffs@.len() == payload_len(secret.value@.len())
    &&& forall|p: int| 0 <= p < rand.coeffs@.len() ==> (#[trigger] rand.coeffs@[p])@.len() == required - 1
}

pub open spec fn all_randomness_fits(secrets: Seq<Secret>, rand: Seq<SecretRandomness>, required: u8) -> bool {
    &&& rand.len() == secrets.len()
    &&& forall|j: int| 0 <= j < secrets.len() ==> #[trigger] randomness_fits(secrets[j], rand[j], required)
}

/// The protected payload of `secret` under `rand`.
pub open spec fn secret_payload(secret: Secret, rand: SecretRandomness) -> Seq<u8> {
    payload_of(secret.value@, secret.passphrase@, rand.salt@, rand.nonce@)
}

/// Share number `i + 1` of a backup of `secrets` made with `config` and `rand`.
pub open spec fn is_share_of(
    share: BackupShare,
    secrets: Seq<Secret>,
    config: BackupConfig,
    rand: Seq<SecretRandomness>,
    i: int,
) -> bool {
    &&& share.number == i + 1
    &&& share.required_shares == config.required_shares
    &&& share.num_shares == config.num_shares
    &&& share.fragments@.len() == secrets.len()
    &&& forall|j: int|
        0 <= j < secrets.len() ==> (#[trigger] share.fragments@[j])@.len() == rand[j].coeffs@.len()
    &&& forall|j: int|
        0 <= j < secrets.len() ==> (#[trigger] share.fragments@[j])@ == share_fragment(
            secret_payload(secrets[j], rand[j]),
            rand[j].coeffs@,
            i,
        )
}

/// `shares` is the backup of `secrets` made with `config` and `rand`.
pub open spec fn is_backup_of(
    shares: Seq<BackupShare>,
    secrets: Seq<Secret>,
    config: BackupConfig,
    rand: Seq<SecretRandomness>,
) -> bool {
    &&& shares.len() == config.num_shares
    &&& forall|i: int| 0 <= i < shares.len() ==> #[trigger] is_share_of(shares[i], secrets, config, rand, i)
}

/// Whether a configuration is valid.
pub fn validate_config(config: BackupConfig) -> (r: bool)
    ensures
        r == valid_config(config.required_shares, config.num_shares),
{
    (config.required_shares == 1 && config.num_shares == 1) || (2 <= config.required_shares
        && config.required_shares <= config.num_shares)
}

/// Whether every secret has a value and a passphrase.
pub fn check_secrets(secrets: &Vec<Secret>) -> (r: bool)
    ensures
        r == secrets_ok(secrets@),
{
    if secrets.len() == 0 {
        return false;
    }
    let mut j: usize = 0;
    while j < secrets.len()
        invariant
            j <= secrets.len(),
            forall|k: int| 0 <= k < j ==> #[trigger] secret_ok(secrets@[k]),
        decreases secrets.len() - j,
    {
        if secrets[j].value.len() == 0 || secrets[j].passphrase.len() == 0 {
            assert(!secret_ok(secrets@[j as int]));
            return false;
        }
        j = j + 1;
    }
    true
}

/// Creates a backup of `secrets` from the given random material: each
/// secret is sealed under a key derived from its passphrase, its payload is
/// split into `num_shares` fragments, and share `i` bundles fragment `i` of
/// every secret, in the order of the secrets.
pub fn create_backup_from(
    secrets: &Vec<Secret>,
    config: BackupConfig,
    rand: &Vec<SecretRandomness>,
) -> (r: Result<Vec<BackupShare>, BackupError>)
    requires
        secrets_in_limits(secrets@),
        valid_config(config.required_shares, config.num_shares) && secrets_ok(secrets@)
            ==> all_randomness_fits(secrets@, rand@, config.required_shares),
    ensures
        !valid_config(config.required_shares, config.num_shares) ==> r == Err::<
            Vec<BackupShare>,
            BackupError,
        >(BackupError::InvalidConfig),
        valid_config(config.required_shares, config.num_shares) && !secrets_ok(secrets@) ==> r
            == Err::<Vec<BackupShare>, BackupError>(BackupError::EmptyInput),
        valid_config(config.required_shares, config.num_shares) && secrets_ok(secrets@) ==> (r matches Ok(
            shares,
        ) && is_backup_of(shares@, secrets@, config, rand@)),
{
    if !validate_config(config) {
        return Err(BackupError::InvalidConfig);
    }
    if !check_secrets(secrets) {
        return Err(BackupError::EmptyInput);
    }
    let n = config.num_shares;
    let mut splits: Vec<Vec<Vec<u8>>> = Vec::new();
    let mut j: usize = 0;
    while j < secrets.len()
        invariant
            j <= secrets.len(),
            secrets_in_limits(secrets@),
            all_randomness_fits(secrets@, rand@, config.required_shares),
            n == config.num_shares,
            splits.len() == j,
            forall|k: int| 0 <= k < j ==> (#[trigger] splits[k]).len() == n,
            forall|k: int|
                0 <= k < j ==> (#[trigger] secret_payload(secrets@[k], rand@[k])).len()
                    == rand@[k].coeffs@.len(),
            forall|k: int, i: int|
                0 <= k < j && 0 <= i < n ==> (#[trigger] splits[k][i])@ == share_fragment(
                    secret_payload(secrets@[k], rand@[k]),
                    rand@[k].coeffs@,
                    i,
                ),
        decreases secrets.len() - j,
    {
        let s = &secrets[j];
        let rj = &rand[j];
        assert(randomness_fits(secrets@[j as int], rand@[j as int], config.required_shares));
        let payload = seal_value(&s.value, s.passphrase.as_slice(), &rj.salt, &rj.nonce);
        let parts = split(&payload, &rj.coeffs, n);
        splits.push(parts);
        j = j + 1;
    }
    let mut shares: Vec<BackupShare> = Vec::new();
    let mut i: u8 = 0;
    while i < n
        invariant
            i <= n,
            n == config.num_shares,
            splits.len() == secrets.len(),
            forall|k: int| 0 <= k < secrets.len() ==> (#[trigger] splits[k]).len() == n,
            forall|k: int|
                0 <= k < secrets.len() ==> (#[trigger] secret_payload(secrets@[k], rand@[k])).len()
                    == rand@[k].coeffs@.len(),
            forall|k: int, i: int|
                0 <= k < secrets.len() && 0 <= i < n ==> (#[trigger] splits[k][i])@ == share_fragment(
                    secret_payload(secrets@[k], rand@[k]),
                    rand@[k].coeffs@,
                    i,
                ),
            shares.len() == i,
            forall|k: int| 0 <= k < i ==> #[trigger] is_share_of(shares@[k], secrets@, config, rand@, k),
        decreases n - i,
    {
        let mut fragments: Vec<Vec<u8>> = Vec::new();
        let mut k: usize = 0;
        while k < splits.len()
            invariant
                k <= splits.len(),
                i < n,
                splits.len() == secrets.len(),
                forall|k: int| 0 <= k < secrets.len() ==> (#[trigger] splits[k]).len() == n,
                fragments.len() == k,
                forall|q: int| 0 <= q < k ==> (#[trigger] fragments@[q])@ == splits[q][i as int]@,
            decreases splits.len() - k,
        {
            let f = splits[k][i as usize].clone();
            fragments.push(f);
            k = k + 1;
        }
        let share = BackupShare {
            number: i + 1,
            required_shares: config.required_shares,
            num_shares: config.num_shares,
            fragments,
        };
        shares.push(share);
        i = i + 1;
    }
    Ok(shares)
}

/// Draws the random material that protects `secret` with `required` shares
/// from the operating system's secure source.
fn draw_randomness(secret: &Secret, required: u8) -> (r: Option<SecretRandomness>)
    requires
        required >= 1,
        secret.value@.len() <= MAX_INPUT_LEN,
    ensures
        r matches Some(rand) ==> randomness_fits(*secret, rand, required),
{
    let salt = match random_bytes(SALT_LEN) {
        Some(b) => b,
        None => return None,
    };
    let nonce = match random_bytes(NONCE_LEN) {
        Some(b) => b,
        None => return None,
    };
    let len = SALT_LEN + NONCE_LEN + secret.value.len() + TAG_LEN;
    let mut coeffs: Vec<Vec<u8>> = Vec::new();
    let mut p: usize = 0;
    while p < len
        invariant
            p <= len,
            required >= 1,
            coeffs.len() == p,
            forall|q: int| 0 <= q < p ==> (#[trigger] coeffs@[q])@.len() == required - 1,
        decreases len - p,
    {
        let row = match random_bytes((required - 1) as usize) {
            Some(b) => b,
            None => return None,
        };
        coeffs.push(row);
        p = p + 1;
    }
    Some(SecretRandomness { salt, nonce, coeffs })
}

/// Creates a backup of `secrets` with fresh random salts, nonces and
/// polynomial coefficients. Fails with `InvalidConfig` on an invalid
/// configuration, then with `EmptyInput` when there is no secret or one has
/// an empty value or passphrase, and otherwise only when the random source
/// fails; on success the shares are the backup made with some random
/// material of the right shape.
pub fn create_backup(secrets: &Vec<Secret>, config: BackupConfig) -> (r: Result<Vec<BackupShare>, BackupError>)
    requires
        secrets_in_limits(secrets@),
    ensures
        !valid_config(config.required_shares, config.num_shares) ==> r == Err::<
            Vec<BackupShare>,
            BackupError,
        >(BackupError::InvalidConfig),
        valid_config(config.required_shares, config.num_shares) && !secrets_ok(secrets@) ==> r
            == Err::<Vec<BackupShare>, BackupError>(BackupError::EmptyInput),
        valid_config(config.required_shares, config.num_shares) && secrets_ok(secrets@) ==> (r is Ok
            || r == Err::<Vec<BackupShare>, BackupError>(BackupError::RandomSourceFailure)),
        r matches Ok(shares) ==> exists|rand: Seq<SecretRandomness>|
            all_randomness_fits(secrets@, rand, config.required_shares) && #[trigger] is_backup_of(
                shares@,
                secrets@,
                config,
                rand,
            ),
{
    if !validate_config(config) {
        return Err(BackupError::InvalidConfig);
    }
    if !check_secrets(secrets) {
        return Err(BackupError::EmptyInput);
    }
    let mut rand: Vec<SecretRandomness> = Vec::new();
    let mut j: usize = 0;
    while j < secrets.len()
        invariant
            j <= secrets.len(),
            valid_config(config.required_shares, config.num_shares),
            secrets_ok(secrets@),
            secrets_in_limits(secrets@),
            rand.len() == j,
            forall|k: int| 0 <= k < j ==> #[trigger] randomness_fits(secrets@[k], rand@[k], config.required_shares),
        decreases secrets.len() - j,
    {
        assert(secrets@[j as int].value@.len() <= MAX_INPUT_LEN);
        match draw_randomness(&secrets[j], config.required_shares) {
            Some(rj) => rand.push(rj),
            None => return Err(BackupError::RandomSourceFailure),
        }
        j = j + 1;
    }
    let r = create_backup_from(secrets, config, &rand);
    assert(r matches Ok(shares) ==> is_backup_of(shares@, secrets@, config, rand@));
    r
}

/// `s` agrees with `first` on the scheme, has a number within it, and
/// carries fragments of the same count and lengths.
pub open spec fn share_agrees(s: BackupShare, first: BackupShare) -> bool {
    &&& s.required_shares == first.required_shares
    &&& s.num_shares == first.num_shares
    &&& 1 <= s.number <= first.num_shares
    &&& s.fragments@.len() == first.fragments@.len()
    &&& forall|j: int|
        0 <= j < first.fragments@.len() ==> (#[trigger] s.fragments@[j])@.len() == first.fragments@[j]@.len()
}

/// The shares are non-empty, declare a valid scheme, and all agree with the first.
pub open spec fn shares_consistent(s: Seq<BackupShare>) -> bool {
    &&& s.len() > 0
    &&& valid_config(s[0].required_shares, s[0].num_shares)
    &&& forall|i: int| 0 <= i < s.len() ==> #[trigger] share_agrees(s[i], s[0])
}

/// Whether a share among `picks` has number `x`.
pub open spec fn number_seen(s: Seq<BackupShare>, picks: Seq<usize>, x: u8) -> bool {
    exists|k: int| 0 <= k < picks.len() && #[trigger] s[picks[k] as int].number == x
}

/// Positions, among the first `n`, of the first share with each number.
pub open spec fn distinct_picks(s: Seq<BackupShare>, n: nat) -> Seq<usize>
    decreases n,
{
    if n == 0 {
        Seq::empty()
    } else {
        let prev = distinct_picks(s, (n - 1) as nat);
        if number_seen(s, prev, s[n - 1].number) {
            prev
        } else {
            prev.push((n - 1) as usize)
        }
    }
}

/// How many distinct share numbers `s` holds.
pub open spec fn distinct_count(s: Seq<BackupShare>) -> nat {
    distinct_picks(s, s.len()).len()
}

/// The shares that restoration interpolates from: the first
/// `required_shares` of distinct numbers, in input order.
pub open spec fn chosen(s: Seq<BackupShare>) -> Seq<usize> {
    distinct_picks(s, s.len()).take(s[0].required_shares as int)
}

pub open spec fn chosen_xs(s: Seq<BackupShare>) -> Seq<u8> {
    chosen(s).map_values(|k: usize| s[k as int].number)
}

pub open spec fn chosen_fragments(s: Seq<BackupShare>, j: int) -> Seq<Vec<u8>> {
    chosen(s).map_values(|k: usize| s[k as int].fragments@[j])
}

/// The payload of secret `j` that the chosen shares interpolate to.
pub open spec fn recovered_payload(s: Seq<BackupShare>, j: int) -> Seq<u8> {
    Seq::new(
        s[0].fragments@[j]@.len(),
        |p: int| value_at_zero(chosen_xs(s), column(chosen_fragments(s, j), p)),
    )
}

/// Whether every share agrees with the first and the scheme is valid.
fn check_consistent(shares: &Vec<BackupShare>) -> (r: bool)
    requires
        shares.len() > 0,
    ensures
        r == shares_consistent(shares@),
{
    let first = &shares[0];
    if !validate_config(BackupConfig { required_shares: first.required_shares, num_shares: first.num_shares }) {
        return false;
    }
    let mut i: usize = 0;
    while i < shares.len()
        invariant
            i <= shares.len(),
            first == shares@[0],
            forall|k: int| 0 <= k < i ==> #[trigger] share_agrees(shares@[k], shares@[0]),
        decreases shares.len() - i,
    {
        let s = &shares[i];
        if s.required_shares != first.required_shares || s.num_shares != first.num_shares
            || s.number < 1 || s.number > first.num_shares
            || s.fragments.len() != first.fragments.len() {
            assert(!share_agrees(shares@[i as int], shares@[0]));
            return false;
        }
        let mut j: usize = 0;
        while j < first.fragments.len()
            invariant
                j <= first.fragments.len(),
                first == shares@[0],
                s == shares@[i as int],
                i < shares.len(),
                s.fragments.len() == first.fragments.len(),
                forall|q: int| 0 <= q < j ==> (#[trigger] s.fragments@[q])@.len() == first.fragments@[q]@.len(),
            decreases first.fragments.len() - j,
        {
            if s.fragments[j].len() != first.fragments[j].len() {
                assert(!share_agrees(shares@[i as int], shares@[0]));
                return false;
            }
            j = j + 1;
        }
        assert(share_agrees(shares@[i as int], shares@[0]));
        i = i + 1;
    }
    true
}

/// The positions of the first share of each distinct number, in input order.
fn pick_distinct(shares: &Vec<BackupShare>) -> (picks: Vec<usize>)
    ensures
        picks@ == distinct_picks(shares@, shares.len() as nat),
        forall|k: int| 0 <= k < picks.len() ==> #[trigger] picks[k] < shares.len(),
{
    let mut seen: Vec<bool> = Vec::new();
    let mut x: usize = 0;
    while x < 256
        invariant
            x <= 256,
            seen.len() == x,
            forall|y: int| 0 <= y < x ==> !#[trigger] seen[y],
        decreases 256 - x,
    {
        seen.push(false);
        x = x + 1;
    }
    let mut picks: Vec<usize> = Vec::new();
    let mut i: usize = 0;
    while i < shares.len()
        invariant
            i <= shares.len(),
            seen.len() == 256,
            picks@ == distinct_picks(shares@, i as nat),
            forall|k: int| 0 <= k < picks.len() ==> #[trigger] picks[k] < i,
            forall|y: u8| #[trigger] seen[y as int] == number_seen(shares@, picks@, y),
        decreases shares.len() - i,
    {
        let num = shares[i].number;
        if !seen[num as usize] {
            let ghost old_picks = picks@;
            picks.push(i);
            seen.set(num as usize, true);
            assert forall|y: u8| #[trigger] seen[y as int] == number_seen(shares@, picks@, y) by {
                if y == num {
                    assert(shares@[picks@[old_picks.len() as int] as int].number == y);
                } else {
                    if number_seen(shares@, picks@, y) {
                        let k = choose|k: int| 0 <= k < picks@.len() && #[trigger] shares@[picks@[k] as int].number == y;
                        assert(k < old_picks.len());
                        assert(old_picks[k] == picks@[k]);
                    }
                    if number_seen(shares@, old_picks, y) {
                        let k = choose|k: int| 0 <= k < old_picks.len() && #[trigger] shares@[old_picks[k] as int].number == y;
                        assert(old_picks[k] == picks@[k]);
                    }
                }
            }
        }
        i = i + 1;
    }
    picks
}

/// Restores the secrets of a backup from some of its shares, with the
/// passphrase they were protected with. Fails with `EmptyInput` on an empty
/// passphrase, then with `InsufficientShares` when
/// there are no shares or fewer distinct numbers than the scheme requires,
/// with `InconsistentShares` when the shares disagree on the scheme or on
/// their fragments' count and lengths, and with `AuthenticationFailure`
/// when the payload that the first `required_shares` distinct shares
/// interpolate to does not authenticate under the passphrase. A returned
/// value is always the one value that its payload opens to.
pub fn restore_backup(shares: &Vec<BackupShare>, passphrase: &[u8]) -> (r: Result<Vec<Vec<u8>>, BackupError>)
    requires
        passphrase@.len() <= MAX_INPUT_LEN,
    ensures
        passphrase@.len() == 0 ==> r == Err::<Vec<Vec<u8>>, BackupError>(BackupError::EmptyInput),
        passphrase@.len() > 0 && shares.len() == 0 ==> r == Err::<Vec<Vec<u8>>, BackupError>(BackupError::InsufficientShares),
        passphrase@.len() > 0 && shares.len() > 0 && !shares_consistent(shares@) ==> r == Err::<Vec<Vec<u8>>, BackupError>(
            BackupError::InconsistentShares,
        ),
        passphrase@.len() > 0 && shares_consistent(shares@) && distinct_count(shares@) < shares@[0].required_shares ==> r
            == Err::<Vec<Vec<u8>>, BackupError>(BackupError::InsufficientShares),
        passphrase@.len() > 0 && shares_consistent(shares@) && distinct_count(shares@) >= shares@[0].required_shares ==> (
        r matches Ok(values) ==> values.len() == shares@[0].fragments@.len() && forall|j: int|
            0 <= j < values.len() ==> opens_to(recovered_payload(shares@, j), passphrase@, #[trigger] values[j]@)
                && forall|v: Seq<u8>|
                opens_to(recovered_payload(shares@, j), passphrase@, v) ==> v == values[j]@),
        passphrase@.len() > 0 && shares_consistent(shares@) && distinct_count(shares@) >= shares@[0].required_shares ==> (
        r matches Err(e) ==> e == BackupError::AuthenticationFailure && exists|j: int|
            0 <= j < shares@[0].fragments@.len() && forall|v: Seq<u8>|
                !opens_to(#[trigger] recovered_payload(shares@, j), passphrase@, v)),
{
    if passphrase.len() == 0 {
        return Err(BackupError::EmptyInput);
    }
    if shares.len() == 0 {
        return Err(BackupError::InsufficientShares);
    }
    if !check_consistent(shares) {
        return Err(BackupError::InconsistentShares);
    }
    let picks = pick_distinct(shares);
    let required = shares[0].required_shares as usize;
    if picks.len() < required {
        return Err(BackupError::InsufficientShares);
    }
    let ghost s = shares@;
    let ghost ch = chosen(s);
    assert(ch.len() == required);
    let mut xs: Vec<u8> = Vec::new();
    let mut k: usize = 0;
    while k < required
        invariant
            k <= required <= picks.len(),
            picks@ == distinct_picks(s, s.len() as nat),
            s == shares@,
            ch == chosen(s),
            required == s[0].required_shares,
            forall|q: int| 0 <= q < picks.len() ==> #[trigger] picks[q] < shares.len(),
            xs@ == chosen_xs(s).take(k as int),
        decreases required - k,
    {
        xs.push(shares[picks[k]].number);
        k = k + 1;
        assert(xs@ =~= chosen_xs(s).take(k as int));
    }
    assert(xs@ =~= chosen_xs(s));
    let m = shares[0].fragments.len();
    let mut values: Vec<Vec<u8>> = Vec::new();
    let mut j: usize = 0;
    while j < m
        invariant
            j <= m,
            m == s[0].fragments@.len(),
            required <= picks.len(),
            picks@ == distinct_picks(s, s.len() as nat),
            s == shares@,
            shares_consistent(s),
            required == s[0].required_shares,
            forall|q: int| 0 <= q < picks.len() ==> #[trigger] picks[q] < shares.len(),
            xs@ == chosen_xs(s),
            0 < passphrase@.len() <= MAX_INPUT_LEN,
            values.len() == j,
            forall|q: int|
                0 <= q < j ==> opens_to(recovered_payload(s, q), passphrase@, #[trigger] values[q]@)
                    && forall|v: Seq<u8>|
                    opens_to(recovered_payload(s, q), passphrase@, v) ==> v == values[q]@,
        decreases m - j,
    {
        let len = shares[0].fragments[j].len();
        let mut ys: Vec<Vec<u8>> = Vec::new();
        let mut k: usize = 0;
        while k < required
            invariant
                k <= required <= picks.len(),
                j < m,
                m == s[0].fragments@.len(),
                len == s[0].fragments@[j as int]@.len(),
                picks@ == distinct_picks(s, s.len() as nat),
                s == shares@,
                shares_consistent(s),
                required == s[0].required_shares,
                forall|q: int| 0 <= q < picks.len() ==> #[trigger] picks[q] < shares.len(),
                ys.len() == k,
                forall|q: int| 0 <= q < k ==> (#[trigger] ys@[q])@ == chosen_fragments(s, j as int)[q]@,
                forall|q: int| 0 <= q < k ==> (#[trigger] ys@[q])@.len() == len,
            decreases required - k,
        {
            let idx = picks[k];
            assert(share_agrees(s[idx as int], s[0]));
            let f = shares[idx].fragments[j].clone();
            ys.push(f);
            k = k + 1;
        }
        assert(ys@.len() == chosen_fragments(s, j as int).len());
        let payload = combine(&xs, &ys, len);
        assert forall|p: int| 0 <= p < len implies column(ys@, p) =~= column(chosen_fragments(s, j as int), p) by {}
        assert(payload@ =~= recovered_payload(s, j as int));
        match open_value(&payload, passphrase) {
            Some(v) => values.push(v),
            None => return Err(BackupError::AuthenticationFailure),
        }
        j = j + 1;
    }
    Ok(values)
}

proof fn lemma_distinct_picks_len(s: Seq<BackupShare>, n: nat)
    ensures
        distinct_picks(s, n).len() <= n,
    decreases n,
{
    if n > 0 {
        lemma_distinct_picks_len(s, (n - 1) as nat);
    }
}

/// Fewer shares than the scheme requires never restore: their distinct
/// numbers fall short of the threshold, so `restore_backup` reports
/// `InsufficientShares`. With `required_shares == num_shares` this means
/// that leaving out any one share of a backup makes it unrecoverable.
pub proof fn lemma_too_few_shares(s: Seq<BackupShare>)
    requires
        s.len() > 0,
        s.len() < s[0].required_shares,
    ensures
        distinct_count(s) < s[0].required_shares,
{
    lemma_distinct_picks_len(s, s.len());
}

/// A backup made with one required share out of one is ordinary
/// encryption: its single share is consistent, and restoring it with a
/// secret's passphrase interpolates to that secret's payload, which opens to
/// the secret's value (the one value `restore_backup` can then return).
pub proof fn lemma_single_share_backup_restores(
    shares: Seq<BackupShare>,
    secrets: Seq<Secret>,
    rand: Seq<SecretRandomness>,
    j: int,
)
    requires
        is_backup_of(shares, secrets, BackupConfig { required_shares: 1, num_shares: 1 }, rand),
        all_randomness_fits(secrets, rand, 1),
        0 <= j < secrets.len(),
    ensures
        shares_consistent(shares),
        distinct_count(shares) >= shares[0].required_shares,
        shares[0].fragments@.len() == secrets.len(),
        recovered_payload(shares, j) == secret_payload(secrets[j], rand[j]),
        opens_to(recovered_payload(shares, j), secrets[j].passphrase@, secrets[j].value@),
{
    let config = BackupConfig { required_shares: 1, num_shares: 1 };
    assert(is_share_of(shares[0], secrets, config, rand, 0));
    let first = shares[0];
    assert forall|q: int| 0 <= q < first.fragments@.len() implies (#[trigger] first.fragments@[q])@.len()
        == first.fragments@[q]@.len() by {}
    assert(share_agrees(first, first));
    assert(shares_consistent(shares));
    assert(!number_seen(shares, distinct_picks(shares, 0), shares[0].number));
    assert(distinct_picks(shares, 1) =~= seq![0usize]);
    assert(chosen(shares) =~= seq![0usize]);
    assert(chosen_xs(shares) =~= seq![1u8]);
    let frag = first.fragments@[j];
    assert(chosen_fragments(shares, j) =~= seq![frag]);
    let payload = secret_payload(secrets[j], rand[j]);
    let coeffs = rand[j].coeffs@;
    assert(randomness_fits(secrets[j], rand[j], 1));
    assert(frag@ == share_fragment(payload, coeffs, 0));
    assert forall|p: int| 0 <= p < payload.len() implies #[trigger] recovered_payload(shares, j)[p]
        == payload[p] by {
        assert(coeffs[p]@ =~= Seq::<u8>::empty());
        lemma_single_share_round_trip(payload[p], 0, 1);
        assert(column(chosen_fragments(shares, j), p) =~= seq![frag@[p]]);
        assert(frag@[p] == payload[p]);
    }
    assert(recovered_payload(shares, j) =~= payload);
    lemma_payload_opens(secrets[j].value@, secrets[j].passphrase@, rand[j].salt@, rand[j].nonce@);
}

} // verus!
