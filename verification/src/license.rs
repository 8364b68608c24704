//! Offline licences, and the clock that they are held against.
//!
//! No verdict here stops a read or a write.

use crate::security::SecurityError;
use crate::text::{decimal, to_decimal};
use ed25519_dalek::{Signer, Verifier};
use vstd::prelude::*;
use vstd::utf8::encode_utf8;

verus! {

/// Milliseconds in a day.
pub const DAY_MS: u64 = 86400000;

/// How far a clock may drift before it is worth mentioning.
pub const CLOCK_DRIFT_TOLERANCE_DAYS: u64 = 30;

// ---------------------------------------------------------------------------------------------
// Signatures.
// ---------------------------------------------------------------------------------------------

/// A text as JSON.
pub uninterp spec fn json_text(s: Seq<char>) -> Seq<u8>;

/// `serde_json::to_vec` on a text: writing into a vector does not fail, and the JSON is a function
/// of the text alone.
#[verifier::external_body]
pub(crate) fn text_to_json(s: &str) -> (r: Result<Vec<u8>, serde_json::Error>)
    ensures
        r is Ok,
        r->Ok_0@ == json_text(s@),
{
    serde_json::to_vec(s)
}

/// A text in quotes, with whatever would not print escaped.
pub uninterp spec fn quoted(s: Seq<char>) -> Seq<char>;

/// The `Debug` form of a text, which is a function of the text alone.
#[verifier::external_body]
pub(crate) fn quote(s: &str) -> (q: String)
    ensures
        q@ == quoted(s@),
{
    format!("{:?}", s)
}

/// The public half of an Ed25519 key.
pub uninterp spec fn ed25519_public(secret: Seq<u8>) -> Seq<u8>;

/// The Ed25519 signature of a message.
pub uninterp spec fn ed25519_signature(secret: Seq<u8>, message: Seq<u8>) -> Seq<u8>;

/// Whether an Ed25519 signature of a message is good under a public key.
pub uninterp spec fn ed25519_accepts(
    public: Seq<u8>,
    message: Seq<u8>,
    signature: Seq<u8>,
) -> bool;

/// `ed25519_dalek::SigningKey::verifying_key`: the public key is a function of the secret one.
#[verifier::external_body]
fn public_of(secret: &[u8; 32]) -> (p: [u8; 32])
    ensures
        p@ == ed25519_public(secret@),
{
    ed25519_dalek::SigningKey::from_bytes(secret).verifying_key().to_bytes()
}

/// `ed25519_dalek::SigningKey::sign`: a signature is sixty-four bytes, a function of the key and
/// the message, and good under the public half of the key.
#[verifier::external_body]
fn sign_with(secret: &[u8; 32], message: &[u8]) -> (s: [u8; 64])
    ensures
        s@ == ed25519_signature(secret@, message@),
        ed25519_accepts(ed25519_public(secret@), message@, s@),
{
    ed25519_dalek::SigningKey::from_bytes(secret).sign(message).to_bytes()
}

/// `ed25519_dalek::VerifyingKey::verify`: the answer is a function of the key, the message and the
/// signature. Bytes that are no key accept nothing.
#[verifier::external_body]
fn accepts(public: &[u8; 32], message: &[u8], signature: &[u8; 64]) -> (r: bool)
    ensures
        r == ed25519_accepts(public@, message@, signature@),
{
    match ed25519_dalek::VerifyingKey::from_bytes(public) {
        Ok(key) => key.verify(message, &ed25519_dalek::Signature::from_bytes(signature)).is_ok(),
        Err(_) => false,
    }
}

/// The key of whoever issues licences.
pub struct SigningKey {
    secret: [u8; 32],
}

/// The public half of the issuer's key.
#[derive(Clone, Copy, Debug)]
pub struct VerifyingKey {
    bytes: [u8; 32],
}

impl View for SigningKey {
    type V = Seq<u8>;

    closed spec fn view(&self) -> Seq<u8> {
        self.secret@
    }
}

impl View for VerifyingKey {
    type V = Seq<u8>;

    closed spec fn view(&self) -> Seq<u8> {
        self.bytes@
    }
}

impl SigningKey {
    /// A key from its secret bytes.
    pub fn from_bytes(secret: &[u8; 32]) -> (k: SigningKey)
        ensures
            k@ == secret@,
    {
        SigningKey { secret: *secret }
    }

    /// The public half.
    pub fn verifying_key(&self) -> (p: VerifyingKey)
        ensures
            p@ == ed25519_public(self@),
    {
        VerifyingKey { bytes: public_of(&self.secret) }
    }
}

impl VerifyingKey {
    /// A public key from its bytes.
    pub fn from_bytes(bytes: &[u8; 32]) -> (k: VerifyingKey)
        ensures
            k@ == bytes@,
    {
        VerifyingKey { bytes: *bytes }
    }
}

// ---------------------------------------------------------------------------------------------
// Licences.
// ---------------------------------------------------------------------------------------------

/// What a licence says.
#[derive(Clone, Debug, PartialEq, Eq)]
pub struct LicenseClaims {
    /// Who it is for.
    pub licensee: String,
    /// What it turns on.
    pub features: Vec<String>,
    /// Not valid before this instant, in milliseconds since the Unix epoch.
    pub not_before: u64,
    /// Not valid from this instant on.
    pub not_after: u64,
    /// For how many days after that it is still only a warning.
    pub grace_days: u64,
}

/// Texts as a JSON list, without the brackets.
pub open spec fn json_items(s: Seq<Seq<char>>) -> Seq<u8>
    decreases s.len(),
{
    if s.len() == 0 {
        Seq::empty()
    } else if s.len() == 1 {
        json_text(s[0])
    } else {
        json_items(s.drop_last()) + encode_utf8(","@) + json_text(s.last())
    }
}

/// A list of texts as characters.
pub open spec fn texts_of(v: Seq<String>) -> Seq<Seq<char>> {
    v.map_values(|s: String| s@)
}

/// The bytes of a claim that are signed: its fields in order, as JSON without spaces.
pub open spec fn signed_form(c: LicenseClaims) -> Seq<u8> {
    encode_utf8("{\"licensee\":"@) + json_text(c.licensee@) + encode_utf8(",\"features\":["@)
        + json_items(texts_of(c.features@)) + encode_utf8("],\"not_before\":"@) + encode_utf8(
        decimal(c.not_before as nat),
    ) + encode_utf8(",\"not_after\":"@) + encode_utf8(decimal(c.not_after as nat)) + encode_utf8(
        ",\"grace_days\":"@,
    ) + encode_utf8(decimal(c.grace_days as nat)) + encode_utf8("}"@)
}

fn add_text(out: &mut Vec<u8>, s: &str)
    ensures
        final(out)@ == old(out)@ + encode_utf8(s@),
{
    out.extend_from_slice(s.as_bytes());
}

impl LicenseClaims {
    /// The bytes that get signed.
    pub fn signing_bytes(&self) -> (r: Result<Vec<u8>, SecurityError>)
        ensures
            r is Ok,
            r->Ok_0@ == signed_form(*self),
    {
        let mut out: Vec<u8> = Vec::new();
        add_text(&mut out, "{\"licensee\":");
        match text_to_json(self.licensee.as_str()) {
            Ok(j) => out.extend_from_slice(j.as_slice()),
            Err(source) => {
                return Err(SecurityError::Codec { what: "license claims", source });
            },
        }
        add_text(&mut out, ",\"features\":[");
        let ghost before = out@;
        let ghost names = texts_of(self.features@);
        let mut i: usize = 0;
        assert(names.take(0) =~= Seq::empty());
        assert(before + json_items(names.take(0)) =~= before);
        while i < self.features.len()
            invariant
                i <= self.features@.len(),
                names == texts_of(self.features@),
                out@ == before + json_items(names.take(i as int)),
            decreases self.features@.len() - i,
        {
            let ghost (done, upto) = (names.take(i as int), names.take(i + 1));
            let ghost then = out@;
            if i > 0 {
                add_text(&mut out, ",");
            }
            match text_to_json(self.features[i].as_str()) {
                Ok(j) => out.extend_from_slice(j.as_slice()),
                Err(source) => {
                    return Err(SecurityError::Codec { what: "license claims", source });
                },
            }
            proof {
                assert(upto.drop_last() =~= done);
                assert(upto.last() == names[i as int]);
                assert(names[i as int] == self.features@[i as int]@);
                if i == 0 {
                    assert(upto[0] == names[0]);
                    assert(out@ =~= before + json_items(upto));
                } else {
                    assert(out@ =~= before + json_items(upto));
                }
            }
            i = i + 1;
        }
        assert(names.take(i as int) =~= names);
        add_text(&mut out, "],\"not_before\":");
        add_text(&mut out, to_decimal(self.not_before).as_str());
        add_text(&mut out, ",\"not_after\":");
        add_text(&mut out, to_decimal(self.not_after).as_str());
        add_text(&mut out, ",\"grace_days\":");
        add_text(&mut out, to_decimal(self.grace_days).as_str());
        add_text(&mut out, "}");
        assert(out@ =~= signed_form(*self));
        Ok(out)
    }

    /// Whether the claims turn a feature on.
    pub fn lists(&self, feature: &str) -> (r: bool)
        ensures
            r == texts_of(self.features@).contains(feature@),
    {
        let ghost names = texts_of(self.features@);
        let mut i: usize = 0;
        while i < self.features.len()
            invariant
                i <= self.features@.len(),
                names == texts_of(self.features@),
                forall|k: int| 0 <= k < i ==> #[trigger] names[k] != feature@,
            decreases self.features@.len() - i,
        {
            if same_text(self.features[i].as_str(), feature) {
                assert(names[i as int] == feature@);
                return true;
            }
            i = i + 1;
        }
        false
    }
}

/// Character for character comparison.
fn same_text(a: &str, b: &str) -> (r: bool)
    ensures
        r == (a@ == b@),
{
    let n: usize = a.unicode_len();
    if n != b.unicode_len() {
        return false;
    }
    let mut i: usize = 0;
    while i < n
        invariant
            i <= n,
            n == a@.len(),
            n == b@.len(),
            forall|k: int| 0 <= k < i ==> a@[k] == b@[k],
        decreases n - i,
    {
        if a.get_char(i) != b.get_char(i) {
            return false;
        }
        i = i + 1;
    }
    assert(a@ =~= b@);
    true
}

/// A signed licence. The second signature's place is there, and empty.
#[derive(Clone, Debug, PartialEq, Eq)]
pub struct License {
    /// The claims.
    pub claims: LicenseClaims,
    /// The Ed25519 signature over the claims.
    pub ed25519: Vec<u8>,
    /// The place of a second signature.
    pub ml_dsa: Vec<u8>,
}

/// The licence is signed with the secret half of this key.
pub open spec fn genuine(l: License, public: Seq<u8>) -> bool {
    l.ed25519@.len() == 64 && ed25519_accepts(public, signed_form(l.claims), l.ed25519@)
}

impl License {
    /// Signs claims.
    pub fn sign(claims: LicenseClaims, key: &SigningKey) -> (r: Result<License, SecurityError>)
        ensures
            r is Ok,
            r->Ok_0.claims == claims,
            r->Ok_0.ed25519@ == ed25519_signature(key@, signed_form(claims)),
            r->Ok_0.ml_dsa@.len() == 0,
            genuine(r->Ok_0, ed25519_public(key@)),
    {
        let bytes = match claims.signing_bytes() {
            Ok(b) => b,
            Err(e) => {
                return Err(e);
            },
        };
        let signature = sign_with(&key.secret, bytes.as_slice());
        let ed25519 = vstd::slice::slice_to_vec(&signature);
        assert(ed25519@ =~= signature@);
        Ok(License { claims, ed25519, ml_dsa: Vec::new() })
    }

    /// Checks the signature. That it fails stops nothing; it is for the caller to mention.
    pub fn verify(&self, public: &VerifyingKey) -> (r: Result<(), SecurityError>)
        ensures
            match r {
                Ok(()) => genuine(*self, public@),
                Err(e) => !genuine(*self, public@) && e is LicenseSignature,
            },
    {
        if self.ed25519.len() != 64 {
            return Err(SecurityError::LicenseSignature);
        }
        let mut signature: [u8; 64] = [0u8;64];
        let mut i: usize = 0;
        while i < 64
            invariant
                i <= 64,
                self.ed25519@.len() == 64,
                forall|k: int| 0 <= k < i ==> signature@[k] == self.ed25519@[k],
            decreases 64 - i,
        {
            signature[i] = self.ed25519[i];
            i = i + 1;
        }
        assert(signature@ =~= self.ed25519@);
        let bytes = match self.claims.signing_bytes() {
            Ok(b) => b,
            Err(e) => {
                return Err(e);
            },
        };
        if accepts(&public.bytes, bytes.as_slice(), &signature) {
            Ok(())
        } else {
            Err(SecurityError::LicenseSignature)
        }
    }
}

// ---------------------------------------------------------------------------------------------
// Verdicts.
// ---------------------------------------------------------------------------------------------

/// What is said of a licence. None of it stops a read or a write.
#[derive(Debug, PartialEq, Eq)]
pub enum Status {
    /// Valid, and nothing to say.
    Licensed,
    /// Valid, but there is something to say.
    Warning { days_left: u64, reason: String },
    /// Not licensed. Fleet administration is off; reads and writes are not.
    Degraded { reason: String },
}

/// A [`Status`], with its text as characters.
pub enum Verdict {
    Licensed,
    Warning { days_left: u64, reason: Seq<char> },
    Degraded { reason: Seq<char> },
}

impl View for Status {
    type V = Verdict;

    open spec fn view(&self) -> Verdict {
        match *self {
            Status::Licensed => Verdict::Licensed,
            Status::Warning { days_left, reason } => Verdict::Warning { days_left, reason: reason@ },
            Status::Degraded { reason } => Verdict::Degraded { reason: reason@ },
        }
    }
}

impl Status {
    /// Whether there is nothing to complain about.
    pub fn is_ok(&self) -> (r: bool)
        ensures
            r == (self@ is Licensed),
    {
        match self {
            Status::Licensed => true,
            _ => false,
        }
    }

    /// Whether administration should be off.
    pub fn is_degraded(&self) -> (r: bool)
        ensures
            r == (self@ is Degraded),
    {
        match self {
            Status::Degraded { .. } => true,
            _ => false,
        }
    }

    /// The verdict in words.
    pub fn describe(&self) -> (s: String)
        ensures
            s@ == (match self@ {
                Verdict::Licensed => "licensed"@,
                Verdict::Warning { days_left, reason } => "LICENCE WARNING ("@ + decimal(
                    days_left as nat,
                ) + " days left): "@ + reason,
                Verdict::Degraded { reason } => "LICENCE DEGRADED: "@ + reason
                    + ". Fleet administration is disabled. Reads and writes are UNAFFECTED and will remain so."@,
            }),
    {
        match self {
            Status::Licensed => "licensed".to_owned(),
            Status::Warning { days_left, reason } => "LICENCE WARNING (".to_owned().concat(
                to_decimal(*days_left).as_str(),
            ).concat(" days left): ").concat(reason.as_str()),
            Status::Degraded { reason } => "LICENCE DEGRADED: ".to_owned().concat(
                reason.as_str(),
            ).concat(
                ". Fleet administration is disabled. Reads and writes are UNAFFECTED and will remain so.",
            ),
        }
    }
}

/// A wall clock that never goes back: it remembers the latest time that it has seen.
#[derive(Debug)]
pub struct HighWaterClock {
    high_water_ms: u64,
}

/// The later of two times.
pub open spec fn later(a: u64, b: u64) -> u64 {
    if a >= b {
        a
    } else {
        b
    }
}

/// How many days the wall clock is behind the latest time seen.
pub open spec fn days_behind(high: u64, wall: u64) -> nat {
    if high >= wall {
        (high - wall) as nat / DAY_MS as nat
    } else {
        0
    }
}

impl View for HighWaterClock {
    type V = u64;

    closed spec fn view(&self) -> u64 {
        self.high_water_ms
    }
}

impl HighWaterClock {
    /// A clock that starts from the mark that was kept, or from zero on the first run.
    pub fn new(persisted_high_water_ms: u64) -> (c: HighWaterClock)
        ensures
            c@ == persisted_high_water_ms,
    {
        HighWaterClock { high_water_ms: persisted_high_water_ms }
    }

    /// Takes the wall clock in, and gives the time to believe.
    pub fn observe(&mut self, wall_clock_ms: u64) -> (now: u64)
        ensures
            now == later(old(self)@, wall_clock_ms),
            final(self)@ == now,
    {
        if wall_clock_ms > self.high_water_ms {
            self.high_water_ms = wall_clock_ms;
        }
        self.high_water_ms
    }

    /// The mark, to be kept.
    pub fn high_water_ms(&self) -> (ms: u64)
        ensures
            ms == self@,
    {
        self.high_water_ms
    }

    /// How many days behind the mark this wall clock is.
    pub fn backwards_drift_days(&self, wall_clock_ms: u64) -> (days: u64)
        ensures
            days == days_behind(self@, wall_clock_ms),
    {
        if self.high_water_ms >= wall_clock_ms {
            (self.high_water_ms - wall_clock_ms) / DAY_MS
        } else {
            0
        }
    }
}

/// The instant at which the grace period ends.
pub open spec fn hard_end(c: LicenseClaims) -> int {
    let grace = if c.grace_days * DAY_MS <= u64::MAX {
        c.grace_days * DAY_MS
    } else {
        u64::MAX as int
    };
    if c.not_after + grace <= u64::MAX {
        c.not_after + grace
    } else {
        u64::MAX as int
    }
}

/// The verdict on a licence whose signature is good, at a time `now` to believe while the wall
/// clock says `wall`.
pub open spec fn verdict(c: LicenseClaims, now: u64, wall: u64) -> Verdict {
    let day = DAY_MS as int;
    if now < c.not_before {
        Verdict::Degraded {
            reason: "licence is not valid for another "@ + decimal(
                ((c.not_before - now) / day) as nat,
            ) + " day(s)"@,
        }
    } else if now >= hard_end(c) {
        Verdict::Degraded {
            reason: "licence for "@ + quoted(c.licensee@) + " expired "@ + decimal(
                ((now - c.not_after) / day) as nat,
            ) + " day(s) ago and the grace period has ended"@,
        }
    } else if now >= c.not_after {
        Verdict::Warning {
            days_left: ((hard_end(c) - now) / day) as u64,
            reason: "licence for "@ + quoted(c.licensee@) + " has EXPIRED; running on grace"@,
        }
    } else if days_behind(now, wall) > CLOCK_DRIFT_TOLERANCE_DAYS {
        Verdict::Warning {
            days_left: ((c.not_after - now) / day) as u64,
            reason: "the system clock is "@ + decimal(days_behind(now, wall))
                + " day(s) behind the highest time this system has ever seen. Licence checks are using the high-water mark, not the system clock"@,
        }
    } else if (c.not_after - now) / day <= CLOCK_DRIFT_TOLERANCE_DAYS {
        Verdict::Warning {
            days_left: ((c.not_after - now) / day) as u64,
            reason: "licence for "@ + quoted(c.licensee@) + " expires soon"@,
        }
    } else {
        Verdict::Licensed
    }
}

/// The verdict where there may be no licence, or a forged one.
pub open spec fn judged(license: Option<License>, public: Seq<u8>, now: u64, wall: u64) -> Verdict {
    match license {
        None => Verdict::Degraded { reason: "no licence file found"@ },
        Some(l) => if genuine(l, public) {
            verdict(l.claims, now, wall)
        } else {
            Verdict::Degraded {
                reason: "licence signature is invalid — the file is corrupt, forged, or for a different product"@,
            }
        },
    }
}

/// The verdict on claims whose signature is good.
pub fn judge(claims: &LicenseClaims, now: u64, wall_clock_ms: u64) -> (s: Status)
    ensures
        s@ == verdict(*claims, now, wall_clock_ms),
{
    if now < claims.not_before {
        let days: u64 = (claims.not_before - now) / DAY_MS;
        return Status::Degraded {
            reason: "licence is not valid for another ".to_owned().concat(
                to_decimal(days).as_str(),
            ).concat(" day(s)"),
        };
    }
    let grace_ms: u64 = match claims.grace_days.checked_mul(DAY_MS) {
        Some(ms) => ms,
        None => u64::MAX,
    };
    let end: u64 = match claims.not_after.checked_add(grace_ms) {
        Some(ms) => ms,
        None => u64::MAX,
    };
    if now >= end {
        let days: u64 = (now - claims.not_after) / DAY_MS;
        return Status::Degraded {
            reason: "licence for ".to_owned().concat(
                quote(claims.licensee.as_str()).as_str(),
            ).concat(" expired ").concat(to_decimal(days).as_str()).concat(
                " day(s) ago and the grace period has ended",
            ),
        };
    }
    if now >= claims.not_after {
        return Status::Warning {
            days_left: (end - now) / DAY_MS,
            reason: "licence for ".to_owned().concat(
                quote(claims.licensee.as_str()).as_str(),
            ).concat(" has EXPIRED; running on grace"),
        };
    }
    let drift: u64 = HighWaterClock::new(now).backwards_drift_days(wall_clock_ms);
    let days_left: u64 = (claims.not_after - now) / DAY_MS;
    if drift > CLOCK_DRIFT_TOLERANCE_DAYS {
        return Status::Warning {
            days_left,
            reason: "the system clock is ".to_owned().concat(to_decimal(drift).as_str()).concat(
                " day(s) behind the highest time this system has ever seen. Licence checks are using the high-water mark, not the system clock",
            ),
        };
    }
    if days_left <= CLOCK_DRIFT_TOLERANCE_DAYS {
        return Status::Warning {
            days_left,
            reason: "licence for ".to_owned().concat(
                quote(claims.licensee.as_str()).as_str(),
            ).concat(" expires soon"),
        };
    }
    Status::Licensed
}

/// What holds licences against the issuer's key and the clock.
pub struct Enforcement {
    public_key: VerifyingKey,
    clock: HighWaterClock,
}

impl Enforcement {
    /// The issuer's public key.
    pub closed spec fn spec_key(&self) -> Seq<u8> {
        self.public_key@
    }

    /// The latest time seen.
    pub closed spec fn spec_high_water(&self) -> u64 {
        self.clock@
    }

    /// An engine for this key, from the mark that was kept.
    pub fn new(public_key: VerifyingKey, persisted_high_water_ms: u64) -> (e: Enforcement)
        ensures
            e.spec_key() == public_key@,
            e.spec_high_water() == persisted_high_water_ms,
    {
        Enforcement { public_key, clock: HighWaterClock::new(persisted_high_water_ms) }
    }

    /// The mark, to be kept.
    pub fn high_water_ms(&self) -> (ms: u64)
        ensures
            ms == self.spec_high_water(),
    {
        self.clock.high_water_ms()
    }

    /// Evaluates a licence, at the latest time ever seen.
    pub fn evaluate(&mut self, license: Option<&License>, wall_clock_ms: u64) -> (s: Status)
        ensures
            final(self).spec_key() == old(self).spec_key(),
            final(self).spec_high_water() == later(old(self).spec_high_water(), wall_clock_ms),
            s@ == judged(
                match license {
                    Some(l) => Some(*l),
                    None => None,
                },
                old(self).spec_key(),
                later(old(self).spec_high_water(), wall_clock_ms),
                wall_clock_ms,
            ),
    {
        let now = self.clock.observe(wall_clock_ms);
        let license = match license {
            Some(l) => l,
            None => {
                return Status::Degraded { reason: "no licence file found".to_owned() };
            },
        };
        match self.verify_signature(license) {
            Ok(()) => judge(&license.claims, now, wall_clock_ms),
            Err(_) => Status::Degraded {
                reason: "licence signature is invalid — the file is corrupt, forged, or for a different product".to_owned(),
            },
        }
    }

    /// Whether a feature is on. A degraded licence turns nothing on.
    pub fn has_feature(&mut self, license: Option<&License>, feature: &str, now_ms: u64) -> (r: bool)
        ensures
            final(self).spec_key() == old(self).spec_key(),
            final(self).spec_high_water() == later(old(self).spec_high_water(), now_ms),
            r == match license {
                Some(l) => !(judged(
                    Some(*l),
                    old(self).spec_key(),
                    later(old(self).spec_high_water(), now_ms),
                    now_ms,
                ) is Degraded) && texts_of(l.claims.features@).contains(feature@),
                None => false,
            },
    {
        if self.evaluate(license, now_ms).is_degraded() {
            return false;
        }
        match license {
            Some(l) => l.claims.lists(feature),
            None => false,
        }
    }

    fn verify_signature(&self, license: &License) -> (r: Result<(), SecurityError>)
        ensures
            r is Ok == genuine(*license, self.spec_key()),
    {
        license.verify(&self.public_key)
    }
}

// ---------------------------------------------------------------------------------------------
// Laws.
// ---------------------------------------------------------------------------------------------

/// Winding the clock back does not bring an expired licence back to life: once it was past its
/// grace, it is degraded at every later check, whatever the wall clock says then.
pub proof fn an_expired_licence_stays_expired(l: License, public: Seq<u8>, high: u64, wall: u64, again: u64)
    requires
        genuine(l, public),
        l.claims.not_before <= later(high, wall),
        later(high, wall) >= hard_end(l.claims),
    ensures
        judged(Some(l), public, later(high, wall), wall) is Degraded,
        judged(Some(l), public, later(later(high, wall), again), again) is Degraded,
{
}

/// A jump of the clock never degrades a licence that is valid at the latest time seen, and a small
/// one is passed over in silence.
pub proof fn a_clock_jump_degrades_no_valid_licence(l: License, public: Seq<u8>, high: u64, wall: u64)
    requires
        genuine(l, public),
        l.claims.not_before <= later(high, wall) < l.claims.not_after,
    ensures
        !(judged(Some(l), public, later(high, wall), wall) is Degraded),
        days_behind(later(high, wall), wall) <= CLOCK_DRIFT_TOLERANCE_DAYS && (l.claims.not_after
            - later(high, wall)) / (DAY_MS as int) > CLOCK_DRIFT_TOLERANCE_DAYS ==> judged(
            Some(l),
            public,
            later(high, wall),
            wall,
        ) is Licensed,
{
}

/// The time to believe never goes back.
pub proof fn time_only_moves_forward(high: u64, walls: Seq<u64>)
    ensures
        walls.fold_left(high, |h: u64, w: u64| later(h, w)) >= high,
        forall|i: int|
            0 <= i < walls.len() ==> walls.fold_left(high, |h: u64, w: u64| later(h, w))
                >= #[trigger] walls[i],
    decreases walls.len(),
{
    if walls.len() > 0 {
        let init = walls.drop_last();
        time_only_moves_forward(high, init);
        assert forall|i: int| 0 <= i < walls.len() implies walls.fold_left(
            high,
            |h: u64, w: u64| later(h, w),
        ) >= #[trigger] walls[i] by {
            if i < init.len() {
                assert(init[i] == walls[i]);
            }
        }
    }
}

/// What a genuine licence is worth at a time, in terms of its claims alone: nothing before it starts
/// and from the end of its grace on, whatever grace was bought; a warning in between, with the whole
/// days that are left of the grace. While it is valid there is nothing to say, unless fewer than
/// thirty-one whole days are left, or the wall clock is thirty-one days or more behind.
pub proof fn a_licence_is_good_until_the_end_of_the_grace_it_claims(
    claims: &LicenseClaims,
    now: u64,
    wall: u64,
    s: Status,
)
    requires
        call_ensures(judge, (claims, now, wall), s),
    ensures
        ({
            let bought = claims.not_after + claims.grace_days * 86_400_000;
            let end = if bought <= u64::MAX {
                bought
            } else {
                u64::MAX as int
            };
            &&& s is Degraded <==> now < claims.not_before || now >= end
            &&& claims.not_before <= now && claims.not_after <= now < end ==> s is Warning
                && s->days_left == (end - now) / 86_400_000
            &&& claims.not_before <= now < claims.not_after ==> {
                let left = (claims.not_after - now) / 86_400_000;
                &&& s is Licensed <==> left > 30 && now - wall < 31 * 86_400_000
                &&& s is Warning ==> s->days_left == left
            }
        }),
{
    assert(claims.grace_days * 86_400_000 >= 0) by (nonlinear_arith);
}

/// The reason that goes with a verdict says what is the matter: which licence, and by how many days.
pub proof fn a_verdict_says_what_is_the_matter(
    claims: &LicenseClaims,
    now: u64,
    wall: u64,
    s: Status,
)
    requires
        call_ensures(judge, (claims, now, wall), s),
    ensures
        s is Degraded && now < claims.not_before ==> s->Degraded_reason@
            == "licence is not valid for another "@ + decimal(
            ((claims.not_before - now) / 86_400_000) as nat,
        ) + " day(s)"@,
        s is Degraded && now >= claims.not_before ==> s->Degraded_reason@ == "licence for "@
            + quoted(claims.licensee@) + " expired "@ + decimal(
            ((now - claims.not_after) / 86_400_000) as nat,
        ) + " day(s) ago and the grace period has ended"@,
        s is Warning && now >= claims.not_after ==> s->Warning_reason@ == "licence for "@ + quoted(
            claims.licensee@,
        ) + " has EXPIRED; running on grace"@,
        s is Warning && now < claims.not_after && now - wall >= 31 * 86_400_000
            ==> s->Warning_reason@ == "the system clock is "@ + decimal(
            ((now - wall) / 86_400_000) as nat,
        )
            + " day(s) behind the highest time this system has ever seen. Licence checks are using the high-water mark, not the system clock"@,
        s is Warning && now < claims.not_after && now - wall < 31 * 86_400_000
            ==> s->Warning_reason@ == "licence for "@ + quoted(claims.licensee@)
            + " expires soon"@,
{
    assert(claims.grace_days * 86_400_000 >= 0) by (nonlinear_arith);
}

/// The signature covers every claim: of licences for the same licensee with the same features, the
/// same bytes are signed exactly where every date and the grace are the same; and with the same dates
/// the bytes are the same only where the licensees are written alike in front of lists that are.
pub proof fn a_signature_covers_every_claim(a: LicenseClaims, b: LicenseClaims)
    ensures
        a.licensee@ == b.licensee@ && texts_of(a.features@) == texts_of(b.features@) ==> (
        signed_form(a) == signed_form(b) <==> a.not_before == b.not_before && a.not_after
            == b.not_after && a.grace_days == b.grace_days),
        signed_form(a) == signed_form(b) && a.licensee@ == b.licensee@ && a.not_before
            == b.not_before && a.not_after == b.not_after && a.grace_days == b.grace_days
            ==> json_items(texts_of(a.features@)) == json_items(texts_of(b.features@)),
        signed_form(a) == signed_form(b) && texts_of(a.features@) == texts_of(b.features@)
            && a.not_before == b.not_before && a.not_after == b.not_after && a.grace_days
            == b.grace_days ==> json_text(a.licensee@) == json_text(b.licensee@),
{
    let (ta, tb) = (dates_of(a), dates_of(b));
    lemma_signed(a);
    lemma_signed(b);
    lemma_parts(
        encode_utf8("{\"licensee\":"@),
        json_text(a.licensee@),
        json_text(b.licensee@),
        encode_utf8(",\"features\":["@),
        json_items(texts_of(a.features@)),
        json_items(texts_of(b.features@)),
        ta,
        tb,
    );
    if ta == tb {
        lemma_dates(a, b);
    }
}

proof fn lemma_parts(
    h: Seq<u8>,
    ja: Seq<u8>,
    jb: Seq<u8>,
    m: Seq<u8>,
    ia: Seq<u8>,
    ib: Seq<u8>,
    ta: Seq<u8>,
    tb: Seq<u8>,
)
    ensures
        ja == jb && ia == ib ==> (h + ja + m + ia + ta == h + jb + m + ib + tb <==> ta == tb),
        h + ja + m + ia + ta == h + jb + m + ib + tb && ta == tb && ja == jb ==> ia == ib,
        h + ja + m + ia + ta == h + jb + m + ib + tb && ta == tb && ia == ib ==> ja == jb,
{
    let (fa, fb) = (h + ja + m + ia, h + jb + m + ib);
    let (a, b) = (fa + ta, fb + tb);
    if a == b {
        if ja == jb && ia == ib {
            assert(a.skip(fa.len() as int) =~= ta);
            assert(b.skip(fb.len() as int) =~= tb);
        }
        if ta == tb {
            assert(a.take(fa.len() as int) =~= fa);
            assert(b.take(fb.len() as int) =~= fb);
            if ja == jb {
                let n = (h + ja + m).len() as int;
                assert(fa.skip(n) =~= ia);
                assert(fb.skip(n) =~= ib);
            }
            if ia == ib {
                let n = h.len() as int;
                assert(fa.subrange(n, n + ja.len()) =~= ja);
                assert(fb.subrange(n, n + jb.len()) =~= jb);
            }
        }
    }
}

proof fn lemma_signed(c: LicenseClaims)
    ensures
        signed_form(c) == encode_utf8("{\"licensee\":"@) + json_text(c.licensee@) + encode_utf8(
            ",\"features\":["@,
        ) + json_items(texts_of(c.features@)) + dates_of(c),
{
    lemma_regroup(
        encode_utf8("{\"licensee\":"@) + json_text(c.licensee@) + encode_utf8(
            ",\"features\":["@,
        ) + json_items(texts_of(c.features@)),
        encode_utf8("],\"not_before\":"@),
        encode_utf8(decimal(c.not_before as nat)),
        encode_utf8(",\"not_after\":"@),
        encode_utf8(decimal(c.not_after as nat)),
        encode_utf8(",\"grace_days\":"@),
        encode_utf8(decimal(c.grace_days as nat)),
        encode_utf8("}"@),
    );
}

proof fn lemma_regroup(
    x: Seq<u8>,
    p: Seq<u8>,
    a: Seq<u8>,
    q: Seq<u8>,
    b: Seq<u8>,
    r: Seq<u8>,
    c: Seq<u8>,
    z: Seq<u8>,
)
    ensures
        x + p + a + q + b + r + c + z == x + (p + a + q + b + r + c + z),
        p + a + q + b + r + c + z == p + (a + (q + (b + (r + (c + z))))),
{
    assert(x + p + a + q + b + r + c + z =~= x + (p + a + q + b + r + c + z));
    assert(p + a + q + b + r + c + z =~= p + (a + (q + (b + (r + (c + z))))));
}

proof fn lemma_front(p: Seq<u8>, x: Seq<u8>, y: Seq<u8>)
    requires
        p + x == p + y,
    ensures
        x == y,
{
    assert((p + x).skip(p.len() as int) =~= x);
    assert((p + y).skip(p.len() as int) =~= y);
}

/// The end of what is signed.
spec fn dates_of(c: LicenseClaims) -> Seq<u8> {
    encode_utf8("],\"not_before\":"@) + encode_utf8(decimal(c.not_before as nat)) + encode_utf8(
        ",\"not_after\":"@,
    ) + encode_utf8(decimal(c.not_after as nat)) + encode_utf8(",\"grace_days\":"@) + encode_utf8(
        decimal(c.grace_days as nat),
    ) + encode_utf8("}"@)
}

/// These bytes are decimal digits.
spec fn digits(s: Seq<u8>) -> bool {
    forall|i: int| 0 <= i < s.len() ==> 48 <= #[trigger] s[i] <= 57
}

proof fn lemma_digits(n: u64)
    ensures
        digits(encode_utf8(decimal(n as nat))),
{
    let d = decimal(n as nat);
    crate::text::decimal_round_trips(n as nat);
    assert(vstd::utf8::is_ascii_chars(d));
    vstd::utf8::is_ascii_chars_encode_utf8(d);
    assert forall|i: int| 0 <= i < encode_utf8(d).len() implies 48 <= #[trigger] encode_utf8(d)[i]
        <= 57 by {
        assert(d[i] as u8 == encode_utf8(d)[i]);
    }
}

proof fn lemma_digits_end(x: Seq<u8>, y: Seq<u8>, s: Seq<u8>, t: Seq<u8>)
    requires
        digits(x),
        digits(y),
        s.len() > 0 && t.len() > 0,
        s[0] > 57 || s[0] < 48,
        t[0] > 57 || t[0] < 48,
        x + s == y + t,
    ensures
        x == y,
        s == t,
{
    if x.len() < y.len() {
        assert((x + s)[x.len() as int] == s[0]);
        assert((y + t)[x.len() as int] == y[x.len() as int]);
    } else if y.len() < x.len() {
        assert((y + t)[y.len() as int] == t[0]);
        assert((x + s)[y.len() as int] == x[y.len() as int]);
    }
    assert((x + s).take(x.len() as int) =~= x);
    assert((y + t).take(y.len() as int) =~= y);
    assert((x + s).skip(x.len() as int) =~= s);
    assert((y + t).skip(y.len() as int) =~= t);
}

proof fn lemma_same_number(m: u64, n: u64)
    requires
        encode_utf8(decimal(m as nat)) == encode_utf8(decimal(n as nat)),
    ensures
        m == n,
{
    vstd::utf8::encode_utf8_decode_utf8(decimal(m as nat));
    vstd::utf8::encode_utf8_decode_utf8(decimal(n as nat));
    crate::text::decimal_round_trips(m as nat);
    crate::text::decimal_round_trips(n as nat);
}

proof fn lemma_dates(a: LicenseClaims, b: LicenseClaims)
    requires
        dates_of(a) == dates_of(b),
    ensures
        a.not_before == b.not_before,
        a.not_after == b.not_after,
        a.grace_days == b.grace_days,
{
    let (p, q, r, z) = (
        encode_utf8("],\"not_before\":"@),
        encode_utf8(",\"not_after\":"@),
        encode_utf8(",\"grace_days\":"@),
        encode_utf8("}"@),
    );
    lemma_marks();
    let (a1, a2, a3) = (
        encode_utf8(decimal(a.not_before as nat)),
        encode_utf8(decimal(a.not_after as nat)),
        encode_utf8(decimal(a.grace_days as nat)),
    );
    let (b1, b2, b3) = (
        encode_utf8(decimal(b.not_before as nat)),
        encode_utf8(decimal(b.not_after as nat)),
        encode_utf8(decimal(b.grace_days as nat)),
    );
    lemma_digits(a.not_before);
    lemma_digits(a.not_after);
    lemma_digits(a.grace_days);
    lemma_digits(b.not_before);
    lemma_digits(b.not_after);
    lemma_digits(b.grace_days);
    lemma_regroup(Seq::empty(), p, a1, q, a2, r, a3, z);
    lemma_regroup(Seq::empty(), p, b1, q, b2, r, b3, z);
    lemma_numbers(p, q, r, z, a1, a2, a3, b1, b2, b3);
    lemma_same_number(a.not_before, b.not_before);
    lemma_same_number(a.not_after, b.not_after);
    lemma_same_number(a.grace_days, b.grace_days);
}

/// What is signed by the issuer is taken for genuine, as long as nothing of it is changed; and what is
/// not is answered with the same error, whatever is wrong with it.
pub proof fn a_licence_is_genuine_where_its_signature_is_good(
    l: &License,
    public: &VerifyingKey,
    r: Result<(), SecurityError>,
)
    requires
        call_ensures(License::verify, (l, public), r),
    ensures
        r is Ok <==> l.ed25519@.len() == 64 && ed25519_accepts(
            public@,
            signed_form(l.claims),
            l.ed25519@,
        ),
        r is Err ==> r->Err_0 is LicenseSignature,
{
}

/// The time that a licence is held against is the later of the wall clock and the latest time ever
/// seen, and how far the wall clock is behind is counted in whole days.
pub proof fn a_clock_never_goes_back(high: u64, wall: u64, c: &HighWaterClock, days: u64)
    requires
        c@ == high,
        call_ensures(HighWaterClock::backwards_drift_days, (c, wall), days),
    ensures
        later(high, wall) >= high && later(high, wall) >= wall,
        later(high, wall) == high || later(high, wall) == wall,
        wall >= high ==> days == 0,
        wall < high ==> days * 86_400_000 <= high - wall < (days + 1) * 86_400_000,
{
}

/// What is said where there is no licence, or one that is not genuine, is that nothing is licensed.
/// A genuine one is judged by its claims, at the latest time seen.
pub proof fn only_a_genuine_licence_is_worth_anything(
    license: Option<License>,
    public: Seq<u8>,
    now: u64,
    wall: u64,
    claims: &LicenseClaims,
    s: Status,
)
    requires
        license is Some ==> *claims == license.unwrap().claims,
        call_ensures(judge, (claims, now, wall), s),
    ensures
        license is None || !(license.unwrap().ed25519@.len() == 64 && ed25519_accepts(
            public,
            signed_form(license.unwrap().claims),
            license.unwrap().ed25519@,
        )) ==> judged(license, public, now, wall) is Degraded,
        license is Some && license.unwrap().ed25519@.len() == 64 && ed25519_accepts(
            public,
            signed_form(license.unwrap().claims),
            license.unwrap().ed25519@,
        ) ==> judged(license, public, now, wall) == s@,
        license is None ==> judged(license, public, now, wall)->Degraded_reason
            == "no licence file found"@,
{
}

proof fn lemma_marks()
    ensures
        encode_utf8(",\"not_after\":"@).len() > 0 && encode_utf8(",\"not_after\":"@)[0] == 44,
        encode_utf8(",\"grace_days\":"@).len() > 0 && encode_utf8(",\"grace_days\":"@)[0] == 44,
        encode_utf8("}"@).len() > 0 && encode_utf8("}"@)[0] == 125,
{
    reveal_strlit(",\"not_after\":");
    reveal_strlit(",\"grace_days\":");
    reveal_strlit("}");
    vstd::utf8::is_ascii_chars_encode_utf8(",\"not_after\":"@);
    vstd::utf8::is_ascii_chars_encode_utf8(",\"grace_days\":"@);
    vstd::utf8::is_ascii_chars_encode_utf8("}"@);
    assert(",\"not_after\":"@[0] as u8 == 44);
    assert(",\"grace_days\":"@[0] as u8 == 44);
    assert("}"@[0] as u8 == 125);
}

proof fn lemma_numbers(
    p: Seq<u8>,
    q: Seq<u8>,
    r: Seq<u8>,
    z: Seq<u8>,
    a1: Seq<u8>,
    a2: Seq<u8>,
    a3: Seq<u8>,
    b1: Seq<u8>,
    b2: Seq<u8>,
    b3: Seq<u8>,
)
    requires
        q.len() > 0 && q[0] == 44,
        r.len() > 0 && r[0] == 44,
        z.len() > 0 && z[0] == 125,
        digits(a1) && digits(a2) && digits(a3) && digits(b1) && digits(b2) && digits(b3),
        p + (a1 + (q + (a2 + (r + (a3 + z))))) == p + (b1 + (q + (b2 + (r + (b3 + z))))),
    ensures
        a1 == b1,
        a2 == b2,
        a3 == b3,
{
    lemma_front(p, a1 + (q + (a2 + (r + (a3 + z)))), b1 + (q + (b2 + (r + (b3 + z)))));
    lemma_digits_end(a1, b1, q + (a2 + (r + (a3 + z))), q + (b2 + (r + (b3 + z))));
    lemma_front(q, a2 + (r + (a3 + z)), b2 + (r + (b3 + z)));
    lemma_digits_end(a2, b2, r + (a3 + z), r + (b3 + z));
    lemma_front(r, a3 + z, b3 + z);
    lemma_digits_end(a3, b3, z, z);
}

/// A verdict is fine exactly where the licence is good, and worth nothing exactly where it is degraded;
/// a licence grants the features that it lists.
pub proof fn a_status_is_one_of_three(
    s: &Status,
    fine: bool,
    degraded: bool,
    claims: &LicenseClaims,
    feature: &str,
    listed: bool,
)
    requires
        call_ensures(Status::is_ok, (s,), fine),
        call_ensures(Status::is_degraded, (s,), degraded),
        call_ensures(LicenseClaims::lists, (claims, feature), listed),
    ensures
        fine <==> *s == Status::Licensed,
        degraded <==> *s is Degraded,
        !(fine && degraded),
        listed <==> exists|i: int|
            0 <= i < claims.features@.len() && (#[trigger] claims.features@[i])@ == feature@,
{
    let t = texts_of(claims.features@);
    if listed {
        let i = choose|i: int| 0 <= i < t.len() && t[i] == feature@;
        assert(claims.features@[i]@ == feature@);
    }
    if exists|i: int| 0 <= i < claims.features@.len() && (#[trigger] claims.features@[i])@
        == feature@ {
        let i = choose|i: int|
            0 <= i < claims.features@.len() && (#[trigger] claims.features@[i])@ == feature@;
        assert(t[i] == feature@);
    }
}

/// A wall clock is as many whole days behind as fit between it and the latest time seen.
pub proof fn days_behind_are_whole_days(c: &HighWaterClock, wall: u64, days: u64)
    requires
        call_ensures(HighWaterClock::backwards_drift_days, (c, wall), days),
    ensures
        wall >= c@ ==> days == 0,
        wall <= c@ ==> days * 86_400_000 <= c@ - wall < (days + 1) * 86_400_000,
{
}

} // verus!
