//! Fake data generation for PII anonymisation.

use crate::config::{AnonymizedEntity, ConcealError, DetectedEntity, FakerConfig};
use crate::strmap::StrMap;
use crate::text::{chars_eq, chars_of, dec, dec_pad, dec_pad_exec, prefix_before, prefix_before_exec, push_all, string_of};
use fake::Fake;
use rand::rngs::StdRng;
use rand::{Rng, SeedableRng};
use vstd::prelude::*;

verus! {

/// `rand::rngs::StdRng`, the generator behind every fake value.
#[verifier::external_type_specification]
#[verifier::external_body]
pub struct ExStdRng(StdRng);

// ---------------------------------------------------------------------------
// Calls into rand, fake and uuid
// ---------------------------------------------------------------------------

/// `StdRng::seed_from_u64(seed)`. The generator is opaque; nothing is claimed
/// of it.
#[verifier::external_body]
fn seeded_rng(seed: u64) -> StdRng {
    StdRng::seed_from_u64(seed)
}

/// `StdRng::from_entropy()`, seeded from the operating system. The generator
/// is opaque; nothing is claimed of it.
#[verifier::external_body]
fn entropy_rng() -> StdRng {
    StdRng::from_entropy()
}

/// `rng.gen_range(lo..hi)` on `i32`: a value in `lo..hi` (rand panics on an
/// empty range, which `requires` leaves out).
#[verifier::external_body]
fn random_i32(rng: &mut StdRng, lo: i32, hi: i32) -> (r: i32)
    requires
        lo < hi,
    ensures
        lo <= r < hi,
{
    rng.gen_range(lo..hi)
}

/// `rng.gen_range(0..n)` on `usize`: an index below `n` (rand panics on an
/// empty range, which `requires` leaves out).
#[verifier::external_body]
fn random_index(rng: &mut StdRng, n: usize) -> (r: usize)
    requires
        n > 0,
    ensures
        r < n,
{
    rng.gen_range(0..n)
}

/// The three top-level domains of a `SafeEmail`.
pub open spec fn email_domains() -> Seq<Seq<char>> {
    seq!["com"@, "net"@, "org"@]
}

/// An address of the shape that `fake`'s `SafeEmail` produces.
pub open spec fn email_shape(user: Seq<char>, domain: Seq<char>) -> Seq<char> {
    user + "@example."@ + domain
}

/// `s` has the shape of a `SafeEmail`.
pub open spec fn is_email(s: Seq<char>) -> bool {
    exists|user: Seq<char>, d: int| 0 <= d < 3 && s == #[trigger] email_shape(user, email_domains()[d])
}

/// `SafeEmail().fake_with_rng(rng)`: in fake 2.10 a lower-cased first name,
/// `@example.` and one of `com`, `net`, `org`. Which name is drawn is not
/// stated.
#[verifier::external_body]
fn fake_safe_email(rng: &mut StdRng) -> (r: String)
    ensures
        is_email(r@),
{
    fake::faker::internet::en::SafeEmail().fake_with_rng(rng)
}

/// `FirstName().fake_with_rng(rng)`: a first name from the locale's list;
/// which one is not stated.
#[verifier::external_body]
fn fake_first_name(rng: &mut StdRng) -> String {
    fake::faker::name::en::FirstName().fake_with_rng(rng)
}

/// `LastName().fake_with_rng(rng)`: a last name from the locale's list; which
/// one is not stated.
#[verifier::external_body]
fn fake_last_name(rng: &mut StdRng) -> String {
    fake::faker::name::en::LastName().fake_with_rng(rng)
}

/// A dotted-quad IPv4 address.
pub open spec fn ipv4_shape(a: nat, b: nat, c: nat, d: nat) -> Seq<char> {
    dec(a) + "."@ + dec(b) + "."@ + dec(c) + "."@ + dec(d)
}

/// `s` is a dotted-quad IPv4 address.
pub open spec fn is_ipv4(s: Seq<char>) -> bool {
    exists|a: nat, b: nat, c: nat, d: nat|
        a < 256 && b < 256 && c < 256 && d < 256 && s == #[trigger] ipv4_shape(a, b, c, d)
}

/// `IP().fake_with_rng(rng)`: in fake 2.10 this draws an IPv4 address from
/// the thread-local generator (the given one is not used) and prints four
/// decimal octets joined by dots.
#[verifier::external_body]
fn fake_ip(rng: &mut StdRng) -> (r: String)
    ensures
        is_ipv4(r@),
{
    fake::faker::internet::en::IP().fake_with_rng(rng)
}

/// The English domain suffixes of `fake`.
pub open spec fn domain_suffixes() -> Seq<Seq<char>> {
    seq!["com"@, "biz"@, "info"@, "name"@, "net"@, "org"@, "io"@, "co"@]
}

/// `DomainSuffix().fake_with_rng(rng)`: one of the English locale's eight
/// suffixes.
#[verifier::external_body]
fn fake_domain_suffix(rng: &mut StdRng) -> (r: String)
    ensures
        domain_suffixes().contains(r@),
{
    fake::faker::internet::en::DomainSuffix().fake_with_rng(rng)
}

/// `Uuid::new_v4().to_string()`: a random UUID in its hyphenated form of 36
/// characters.
#[verifier::external_body]
fn new_mapping_id() -> (r: String)
    ensures
        r@.len() == 36,
{
    uuid::Uuid::new_v4().to_string()
}

/// What `str::to_uppercase` returns for a string (Unicode case mapping).
pub uninterp spec fn uppercase(s: Seq<char>) -> Seq<char>;

/// `str::to_uppercase`.
#[verifier::external_body]
fn to_uppercase(s: &str) -> (r: String)
    ensures
        r@ == uppercase(s@),
{
    s.to_uppercase()
}

// ---------------------------------------------------------------------------
// The shapes of fake values
// ---------------------------------------------------------------------------

/// A phone number `555-AAA-BBBB`.
pub open spec fn phone_shape(a: nat, b: nat) -> Seq<char> {
    "555-"@ + dec_pad(a, 3) + "-"@ + dec_pad(b, 4)
}

/// A social security number `9AA-BB-CCCC`, obviously fake by its leading 9.
pub open spec fn ssn_shape(a: nat, b: nat, c: nat) -> Seq<char> {
    "9"@ + dec_pad(a, 2) + "-"@ + dec_pad(b, 2) + "-"@ + dec_pad(c, 4)
}

/// A person's name: first name, a space, last name.
pub open spec fn name_shape(first: Seq<char>, last: Seq<char>) -> Seq<char> {
    first + " "@ + last
}

/// The prefixes of fake host names.
pub open spec fn host_prefixes() -> Seq<Seq<char>> {
    seq!["server"@, "web"@, "db"@, "app"@, "proxy"@, "gateway"@, "host"@, "node"@]
}

/// A host name `PREFIX-NN.fake.SUFFIX`.
pub open spec fn hostname_shape(prefix: Seq<char>, n: nat, suffix: Seq<char>) -> Seq<char> {
    prefix + "-"@ + dec_pad(n, 2) + ".fake."@ + suffix
}

/// The kinds of fake cluster nodes.
pub open spec fn node_types() -> Seq<Seq<char>> {
    seq!["node"@, "worker"@, "master"@, "compute"@, "edge"@]
}

/// The separators of fake node names.
pub open spec fn node_separators() -> Seq<Seq<char>> {
    seq![""@, "-"@, "_"@]
}

/// A node name `KINDNN`, `KIND-NN` or `KIND_NN`.
pub open spec fn node_name_shape(kind: Seq<char>, sep: Seq<char>, n: nat) -> Seq<char> {
    kind + sep + dec_pad(n, 2)
}

/// `s` is a phone number `555-AAA-BBBB` with `100 <= AAA < 999` and
/// `1000 <= BBBB < 9999`.
pub open spec fn is_phone(s: Seq<char>) -> bool {
    exists|a: nat, b: nat| 100 <= a < 999 && 1000 <= b < 9999 && s == #[trigger] phone_shape(a, b)
}

/// `s` is a social security number `9AA-BB-CCCC` with two-digit `AA`, `BB`
/// and four-digit `CCCC`.
pub open spec fn is_ssn(s: Seq<char>) -> bool {
    exists|a: nat, b: nat, c: nat|
        10 <= a < 99 && 10 <= b < 99 && 1000 <= c < 9999 && s == #[trigger] ssn_shape(a, b, c)
}

/// `s` is a first name and a last name joined by a space.
pub open spec fn is_person_name(s: Seq<char>) -> bool {
    exists|first: Seq<char>, last: Seq<char>| s == #[trigger] name_shape(first, last)
}

/// `s` is a fake host name.
pub open spec fn is_hostname(s: Seq<char>) -> bool {
    exists|p: int, n: nat, x: int|
        0 <= p < 8 && 1 <= n < 100 && 0 <= x < 8 && s == #[trigger] hostname_shape(
            host_prefixes()[p],
            n,
            domain_suffixes()[x],
        )
}

/// `s` is a fake node name.
pub open spec fn is_node_name(s: Seq<char>) -> bool {
    exists|k: int, x: int, n: nat|
        0 <= k < 5 && 0 <= x < 3 && 1 <= n < 100 && s == #[trigger] node_name_shape(
            node_types()[k],
            node_separators()[x],
            n,
        )
}

/// `fake` is a value that the generator for `base` can produce.
pub open spec fn fake_fits(base: Seq<char>, fake: Seq<char>) -> bool {
    if base == "email"@ {
        is_email(fake)
    } else if base == "phone"@ {
        is_phone(fake)
    } else if base == "ssn"@ {
        is_ssn(fake)
    } else if base == "name"@ || base == "person_name"@ {
        is_person_name(fake)
    } else if base == "ip_address"@ {
        is_ipv4(fake)
    } else if base == "hostname"@ {
        is_hostname(fake)
    } else if base == "node_name"@ {
        is_node_name(fake)
    } else {
        fake == "REDACTED_"@ + uppercase(base)
    }
}

/// The base type of an entity type: the part before the first `@`.
pub open spec fn base_type(entity_type: Seq<char>) -> Seq<char> {
    prefix_before(entity_type, '@')
}

/// `fake` is a value that anonymising a `detected` entity can produce.
pub open spec fn anonymized_from(detected: DetectedEntity, a: AnonymizedEntity) -> bool {
    &&& a.entity_type == detected.entity_type
    &&& a.original_value == detected.original_value
    &&& a.mapping_id@.len() == 36
    &&& fake_fits(base_type(detected.entity_type@), a.fake_value@)
}

// ---------------------------------------------------------------------------
// The engine
// ---------------------------------------------------------------------------

/// Generates fake values from a random generator, seeded from the
/// configuration when it gives a seed.
pub struct FakerEngine {
    pub rng: StdRng,
    pub locale: String,
    pub consistency: bool,
}

/// The host-name prefix at `i`.
fn host_prefix(i: usize) -> (r: &'static str)
    requires
        i < 8,
    ensures
        r@ == host_prefixes()[i as int],
{
    if i == 0 {
        "server"
    } else if i == 1 {
        "web"
    } else if i == 2 {
        "db"
    } else if i == 3 {
        "app"
    } else if i == 4 {
        "proxy"
    } else if i == 5 {
        "gateway"
    } else if i == 6 {
        "host"
    } else {
        "node"
    }
}

/// The node kind at `i`.
fn node_type(i: usize) -> (r: &'static str)
    requires
        i < 5,
    ensures
        r@ == node_types()[i as int],
{
    if i == 0 {
        "node"
    } else if i == 1 {
        "worker"
    } else if i == 2 {
        "master"
    } else if i == 3 {
        "compute"
    } else {
        "edge"
    }
}

/// Whether the characters `v` spell the literal `lit`.
fn spells(v: &Vec<char>, lit: &str) -> (r: bool)
    ensures
        r == (v@ == lit@),
{
    let l = chars_of(lit);
    chars_eq(v, &l)
}

impl FakerEngine {
    /// An engine for the configuration: seeded from `config.seed` when it is
    /// given, from the operating system otherwise.
    pub fn new(config: &FakerConfig) -> (r: Self)
        ensures
            r.locale == config.locale,
            r.consistency == config.consistency,
    {
        let rng = match config.seed {
            Some(seed) => seeded_rng(seed),
            None => entropy_rng(),
        };
        FakerEngine { rng, locale: config.locale.clone(), consistency: config.consistency }
    }

    /// The base type of an entity type: the part before the first `@`.
    pub fn extract_base_type(&self, entity_type: &str) -> (r: String)
        ensures
            r@ == base_type(entity_type@),
    {
        let v = chars_of(entity_type);
        string_of(&prefix_before_exec(&v, '@'))
    }

    /// A fake e-mail address.
    pub fn generate_fake_email(&mut self) -> (r: String)
        ensures
            is_email(r@),
    {
        fake_safe_email(&mut self.rng)
    }

    /// A fake phone number `555-AAA-BBBB` with `100 <= AAA < 999` and
    /// `1000 <= BBBB < 9999`.
    pub fn generate_fake_phone(&mut self) -> (r: String)
        ensures
            is_phone(r@),
    {
        let a = random_i32(&mut self.rng, 100, 999);
        let b = random_i32(&mut self.rng, 1000, 9999);
        let mut out = chars_of("555-");
        push_all(&mut out, &dec_pad_exec(a as u64, 3));
        push_all(&mut out, &chars_of("-"));
        push_all(&mut out, &dec_pad_exec(b as u64, 4));
        assert(out@ == phone_shape(a as nat, b as nat));
        string_of(&out)
    }

    /// A fake social security number `9AA-BB-CCCC`.
    pub fn generate_fake_ssn(&mut self) -> (r: String)
        ensures
            is_ssn(r@),
    {
        let a = random_i32(&mut self.rng, 10, 99);
        let b = random_i32(&mut self.rng, 10, 99);
        let c = random_i32(&mut self.rng, 1000, 9999);
        let mut out = chars_of("9");
        push_all(&mut out, &dec_pad_exec(a as u64, 2));
        push_all(&mut out, &chars_of("-"));
        push_all(&mut out, &dec_pad_exec(b as u64, 2));
        push_all(&mut out, &chars_of("-"));
        push_all(&mut out, &dec_pad_exec(c as u64, 4));
        assert(out@ == ssn_shape(a as nat, b as nat, c as nat));
        string_of(&out)
    }

    /// A fake person name: a first name, a space and a last name.
    pub fn generate_fake_name(&mut self) -> (r: String)
        ensures
            is_person_name(r@),
    {
        let first = fake_first_name(&mut self.rng);
        let last = fake_last_name(&mut self.rng);
        let mut out = chars_of(first.as_str());
        push_all(&mut out, &chars_of(" "));
        push_all(&mut out, &chars_of(last.as_str()));
        assert(out@ == name_shape(first@, last@));
        string_of(&out)
    }

    /// A fake IPv4 address.
    pub fn generate_fake_ip(&mut self) -> (r: String)
        ensures
            is_ipv4(r@),
    {
        fake_ip(&mut self.rng)
    }

    /// A fake host name such as `server-04.fake.com`.
    pub fn generate_fake_hostname(&mut self) -> (r: String)
        ensures
            is_hostname(r@),
    {
        let p = random_index(&mut self.rng, 8);
        let n = random_i32(&mut self.rng, 1, 100);
        let suffix = fake_domain_suffix(&mut self.rng);
        let mut out = chars_of(host_prefix(p));
        push_all(&mut out, &chars_of("-"));
        push_all(&mut out, &dec_pad_exec(n as u64, 2));
        push_all(&mut out, &chars_of(".fake."));
        push_all(&mut out, &chars_of(suffix.as_str()));
        proof {
            let s = choose|i: int| 0 <= i < 8 && suffix@ == #[trigger] domain_suffixes()[i];
            assert(0 <= s < 8);
            assert(out@ == hostname_shape(host_prefixes()[p as int], n as nat, domain_suffixes()[s]));
        }
        string_of(&out)
    }

    /// A fake node name such as `node42`, `worker-03` or `edge_07`.
    pub fn generate_fake_node_name(&mut self) -> (r: String)
        ensures
            is_node_name(r@),
    {
        let k = random_index(&mut self.rng, 5);
        let n = random_i32(&mut self.rng, 1, 100);
        let choice = random_i32(&mut self.rng, 0, 3);
        let mut out = chars_of(node_type(k));
        let sep = if choice == 0 {
            ""
        } else if choice == 1 {
            "-"
        } else {
            "_"
        };
        let ghost s: int = if choice == 0 {
            0
        } else if choice == 1 {
            1
        } else {
            2
        };
        assert(sep@ == node_separators()[s]);
        push_all(&mut out, &chars_of(sep));
        push_all(&mut out, &dec_pad_exec(n as u64, 2));
        assert(out@ == node_name_shape(node_types()[k as int], node_separators()[s], n as nat));
        string_of(&out)
    }

    /// The fake value for an entity of base type `base`.
    fn fake_for(&mut self, base: &Vec<char>) -> (r: String)
        ensures
            fake_fits(base@, r@),
    {
        proof {
            reveal_strlit("email");
            reveal_strlit("phone");
            reveal_strlit("ssn");
            reveal_strlit("name");
            reveal_strlit("person_name");
            reveal_strlit("ip_address");
            reveal_strlit("hostname");
            reveal_strlit("node_name");
        }
        if spells(base, "email") {
            self.generate_fake_email()
        } else if spells(base, "phone") {
            self.generate_fake_phone()
        } else if spells(base, "ssn") {
            self.generate_fake_ssn()
        } else if spells(base, "name") || spells(base, "person_name") {
            self.generate_fake_name()
        } else if spells(base, "ip_address") {
            self.generate_fake_ip()
        } else if spells(base, "hostname") {
            self.generate_fake_hostname()
        } else if spells(base, "node_name") {
            self.generate_fake_node_name()
        } else {
            let upper = to_uppercase(string_of(base).as_str());
            let mut out = chars_of("REDACTED_");
            push_all(&mut out, &chars_of(upper.as_str()));
            string_of(&out)
        }
    }

    /// Replaces a detected entity by a fake value of its base type, with a
    /// fresh mapping id.
    pub fn anonymize_entity(&mut self, detected: &DetectedEntity) -> (r: Result<
        AnonymizedEntity,
        ConcealError,
    >)
        ensures
            match r {
                Ok(a) => anonymized_from(*detected, a),
                Err(_) => false,
            },
    {
        let base = prefix_before_exec(&chars_of(detected.entity_type.as_str()), '@');
        let fake_value = self.fake_for(&base);
        let mapping_id = new_mapping_id();
        Ok(
            AnonymizedEntity {
                entity_type: detected.entity_type.clone(),
                original_value: detected.original_value.clone(),
                fake_value,
                mapping_id,
            },
        )
    }

    /// Anonymises each entity in turn.
    pub fn anonymize_entities(&mut self, detected_entities: Vec<DetectedEntity>) -> (r: Result<
        Vec<AnonymizedEntity>,
        ConcealError,
    >)
        ensures
            match r {
                Ok(v) => v@.len() == detected_entities@.len() && forall|i: int|
                    0 <= i < v@.len() ==> anonymized_from(detected_entities@[i], #[trigger] v@[i]),
                Err(_) => false,
            },
    {
        let mut out: Vec<AnonymizedEntity> = Vec::new();
        let mut i: usize = 0;
        while i < detected_entities.len()
            invariant
                i <= detected_entities@.len(),
                out@.len() == i,
                forall|j: int|
                    0 <= j < i ==> anonymized_from(detected_entities@[j], #[trigger] out@[j]),
            decreases detected_entities@.len() - i,
        {
            let a = self.anonymize_entity(&detected_entities[i]);
            match a {
                Ok(a) => out.push(a),
                Err(e) => return Err(e),
            }
            i = i + 1;
        }
        Ok(out)
    }

    /// Maps each original value to a fresh fake value; when a value occurs
    /// more than once, the fake of its last occurrence stays.
    pub fn create_replacement_map(&mut self, detected_entities: Vec<DetectedEntity>) -> (r: Result<
        StrMap<String>,
        ConcealError,
    >)
        ensures
            match r {
                Ok(m) => (forall|k: Seq<char>|
                    #![trigger m@.contains_key(k)]
                    m@.contains_key(k) <==> exists|i: int|
                        0 <= i < detected_entities@.len() && detected_entities@[i].original_value@
                            == k) && (forall|k: Seq<char>|
                    #![trigger m@.contains_key(k)]
                    m@.contains_key(k) ==> exists|i: int|
                        0 <= i < detected_entities@.len() && detected_entities@[i].original_value@
                            == k && (forall|j: int|
                            i < j < detected_entities@.len()
                                ==> detected_entities@[j].original_value@ != k) && fake_fits(
                            base_type(detected_entities@[i].entity_type@),
                            m@[k]@,
                        )),
                Err(_) => false,
            },
    {
        let mut m: StrMap<String> = StrMap::new();
        let mut i: usize = 0;
        while i < detected_entities.len()
            invariant
                i <= detected_entities@.len(),
                forall|k: Seq<char>|
                    #![trigger m@.contains_key(k)]
                    m@.contains_key(k) <==> exists|j: int|
                        0 <= j < i && detected_entities@[j].original_value@ == k,
                forall|k: Seq<char>|
                    #![trigger m@.contains_key(k)]
                    m@.contains_key(k) ==> exists|j: int|
                        0 <= j < i && detected_entities@[j].original_value@ == k && (forall|l: int|
                            j < l < i ==> detected_entities@[l].original_value@ != k) && fake_fits(
                            base_type(detected_entities@[j].entity_type@),
                            m@[k]@,
                        ),
            decreases detected_entities@.len() - i,
        {
            let a = self.anonymize_entity(&detected_entities[i]);
            match a {
                Ok(a) => {
                    let ghost old_m = m@;
                    let ghost key = a.original_value@;
                    m.insert(a.original_value, a.fake_value);
                    proof {
                        assert forall|k: Seq<char>| #[trigger]
                            m@.contains_key(k) implies exists|j: int|
                            0 <= j < i + 1 && detected_entities@[j].original_value@ == k && (forall|
                                l: int,
                            |
                                j < l < i + 1 ==> detected_entities@[l].original_value@ != k)
                                && fake_fits(
                                base_type(detected_entities@[j].entity_type@),
                                m@[k]@,
                            ) by {
                            if k == key {
                                assert(detected_entities@[i as int].original_value@ == k);
                            } else {
                                assert(old_m.contains_key(k));
                                let j = choose|j: int|
                                    0 <= j < i && detected_entities@[j].original_value@ == k
                                        && (forall|l: int|
                                        j < l < i ==> detected_entities@[l].original_value@ != k)
                                        && fake_fits(
                                        base_type(detected_entities@[j].entity_type@),
                                        old_m[k]@,
                                    );
                                assert(m@[k] == old_m[k]);
                            }
                        }
                        assert forall|k: Seq<char>| #[trigger]
                            m@.contains_key(k) <==> exists|j: int|
                                0 <= j < i + 1 && detected_entities@[j].original_value@ == k by {
                            if k != key && exists|j: int|
                                0 <= j < i + 1 && detected_entities@[j].original_value@ == k {
                                let j = choose|j: int|
                                    0 <= j < i + 1 && detected_entities@[j].original_value@ == k;
                                assert(j < i);
                                assert(old_m.contains_key(k));
                            }
                        }
                    }
                },
                Err(e) => return Err(e),
            }
            i = i + 1;
        }
        Ok(m)
    }
}

} // verus!
