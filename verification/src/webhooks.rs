use vstd::prelude::*;

use base64::Engine;
use hmac::Mac;
use vstd::string::StringExecFns;

use crate::auth::hex_digits;
use crate::text::{owned, str_eq, strs};

verus! {

// ---------------------------------------------------------------------------
// Signatures (Standard Webhooks v1)
// ---------------------------------------------------------------------------

/// The decimal digits of a natural number, most significant first.
pub open spec fn nat_decimal(n: nat) -> Seq<char>
    decreases n,
{
    if n < 10 {
        seq![hex_digits()[n as int]]
    } else {
        nat_decimal(n / 10) + seq![hex_digits()[(n % 10) as int]]
    }
}

/// The decimal form of an integer, with a leading minus sign when negative.
pub open spec fn int_decimal(n: int) -> Seq<char> {
    if n < 0 {
        seq!['-'] + nat_decimal((-n) as nat)
    } else {
        nat_decimal(n as nat)
    }
}

/// The string that is signed: `"{webhook_id}.{timestamp}.{body}"`.
pub open spec fn signed_payload(webhook_id: Seq<char>, timestamp: i64, body: Seq<char>) -> Seq<char> {
    webhook_id + seq!['.'] + int_decimal(timestamp as int) + seq!['.'] + body
}

/// The character of value `i` (below 64) in the standard base64 alphabet.
pub open spec fn b64_char(i: int) -> char {
    if i < 26 {
        (65 + i) as char
    } else if i < 52 {
        (97 + i - 26) as char
    } else if i < 62 {
        (48 + i - 52) as char
    } else if i == 62 {
        '+'
    } else {
        '/'
    }
}

/// Standard base64 (RFC 4648, with `=` padding) of a byte string.
pub open spec fn base64_std(b: Seq<u8>) -> Seq<char>
    decreases b.len(),
{
    if b.len() == 0 {
        Seq::empty()
    } else {
        let x0 = b[0] as int;
        let x1 = if b.len() > 1 { b[1] as int } else { 0 };
        let x2 = if b.len() > 2 { b[2] as int } else { 0 };
        let c0 = b64_char(x0 / 4);
        let c1 = b64_char((x0 % 4) * 16 + x1 / 16);
        let c2 = if b.len() > 1 { b64_char((x1 % 16) * 4 + x2 / 64) } else { '=' };
        let c3 = if b.len() > 2 { b64_char(x2 % 64) } else { '=' };
        if b.len() <= 3 {
            seq![c0, c1, c2, c3]
        } else {
            seq![c0, c1, c2, c3] + base64_std(b.subrange(3, b.len() as int))
        }
    }
}

/// HMAC-SHA256 under the UTF-8 bytes of `key` of the UTF-8 bytes of `message`.
pub uninterp spec fn hmac_sha256_of(key: Seq<char>, message: Seq<char>) -> Seq<u8>;

/// The Standard Webhooks v1 signature header of a request.
pub open spec fn signature_of(secret: Seq<char>, webhook_id: Seq<char>, timestamp: i64, body: Seq<char>) -> Seq<char> {
    seq!['v', '1', ','] + base64_std(hmac_sha256_of(secret, signed_payload(webhook_id, timestamp, body)))
}

/// HMAC-SHA256 from the `hmac` crate (`Mac::new_from_slice`, `update`,
/// `finalize`). The result is named by `hmac_sha256_of`; the tag of
/// HMAC-SHA256 is 32 bytes. `new_from_slice` accepts any key length.
#[verifier::external_body]
fn hmac_sha256(key: &str, message: &str) -> (r: Vec<u8>)
    ensures
        r@ == hmac_sha256_of(key@, message@),
        r@.len() == 32,
{
    let mut mac = <hmac::Hmac<sha2::Sha256> as Mac>::new_from_slice(key.as_bytes())
        .expect("HMAC-SHA256 accepts any key length");
    mac.update(message.as_bytes());
    mac.finalize().into_bytes().to_vec()
}

/// `base64::engine::general_purpose::STANDARD.encode`: standard alphabet,
/// with padding.
#[verifier::external_body]
fn base64_standard(bytes: &Vec<u8>) -> (r: String)
    ensures
        r@ == base64_std(bytes@),
{
    base64::engine::general_purpose::STANDARD.encode(bytes)
}

/// Append the decimal digits of `n` to `out`.
pub(crate) fn push_decimal(out: &mut String, n: u64)
    ensures
        final(out)@ == old(out)@ + nat_decimal(n as nat),
    decreases n,
{
    if n >= 10 {
        push_decimal(out, n / 10);
    }
    let d = crate::auth::hex_digit((n % 10) as u8);
    let ghost before = out@;
    out.append(d);
    proof {
        if n >= 10 {
            assert(nat_decimal(n as nat) == nat_decimal((n / 10) as nat) + seq![hex_digits()[(n % 10) as int]]);
        } else {
            assert(nat_decimal(n as nat) == seq![hex_digits()[n as int]]);
        }
    }
}

/// Append the decimal form of `n` to `out`.
fn push_i64(out: &mut String, n: i64)
    ensures
        final(out)@ == old(out)@ + int_decimal(n as int),
{
    if n < 0 {
        out.append("-");
        proof { reveal_strlit("-"); }
        let m: u64 = (0i128 - n as i128) as u64;
        let ghost mid = out@;
        push_decimal(out, m);
        proof {
            assert(out@ =~= old(out)@ + int_decimal(n as int));
        }
    } else {
        push_decimal(out, n as u64);
    }
}

/// Compute the Standard Webhooks v1 signature:
/// `v1,<base64(HMAC-SHA256(secret, "{webhook_id}.{timestamp}.{body}"))>`.
pub fn sign_request(secret: &str, webhook_id: &str, timestamp: i64, body: &str) -> (r: String)
    ensures
        r@ == signature_of(secret@, webhook_id@, timestamp, body@),
{
    let mut payload = owned(webhook_id);
    payload.append(".");
    push_i64(&mut payload, timestamp);
    payload.append(".");
    payload.append(body);
    proof {
        reveal_strlit(".");
        assert(payload@ =~= signed_payload(webhook_id@, timestamp, body@));
    }
    let mac = hmac_sha256(secret, payload.as_str());
    let mut sig = owned("v1,");
    proof { reveal_strlit("v1,"); }
    let encoded = base64_standard(&mac);
    sig.append(encoded.as_str());
    proof {
        assert(sig@ =~= signature_of(secret@, webhook_id@, timestamp, body@));
    }
    sig
}

// ---------------------------------------------------------------------------
// Subscription filters
// ---------------------------------------------------------------------------

/// What a subscription's filter reads.
pub struct SubscriptionFilter {
    pub last_delivered_seq: i64,
    pub exclude_thinking: bool,
    pub kinds: Vec<String>,
    pub only_from: Option<String>,
    pub not_from: Option<String>,
}

/// What the filter reads of a chat message: its sequence number, its
/// sender's name, and the string values of `type` and `kind` in its metadata.
pub struct MessageFacts {
    pub seq: i64,
    pub agent_name: String,
    pub meta_type: Option<String>,
    pub meta_kind: Option<String>,
}

pub open spec fn system_type() -> Seq<char> {
    seq!['s', 'y', 's', 't', 'e', 'm']
}

pub open spec fn thinking_type() -> Seq<char> {
    seq!['t', 'h', 'i', 'n', 'k', 'i', 'n', 'g']
}

/// Whether `msg` passes `sub`'s filter. Fields combine with AND; the kinds
/// combine with OR. A message at or before the cursor, and a system
/// message, never pass.
pub open spec fn filter_passes(sub: SubscriptionFilter, msg: MessageFacts) -> bool {
    let ty = crate::room::opt_view(msg.meta_type);
    let kind = crate::room::opt_view(msg.meta_kind);
    &&& msg.seq > sub.last_delivered_seq
    &&& ty != Some(system_type())
    &&& !(sub.exclude_thinking && ty == Some(thinking_type()))
    &&& (sub.kinds@.len() == 0 || (kind matches Some(k) && strs(sub.kinds@).contains(k)))
    &&& (sub.only_from matches Some(o) ==> msg.agent_name@ == o@)
    &&& (sub.not_from matches Some(n) ==> msg.agent_name@ != n@)
}

/// System messages are never delivered, whatever the subscription asks.
pub proof fn lemma_system_messages_never_delivered(sub: SubscriptionFilter, msg: MessageFacts)
    requires
        crate::room::opt_view(msg.meta_type) == Some(system_type()),
    ensures
        !filter_passes(sub, msg),
{
}

/// A message is delivered at most once per subscription cursor: nothing at
/// or before the cursor passes.
pub proof fn lemma_cursor_blocks_redelivery(sub: SubscriptionFilter, msg: MessageFacts)
    requires
        msg.seq <= sub.last_delivered_seq,
    ensures
        !filter_passes(sub, msg),
{
}

/// Listed kinds combine with OR: a message whose kind is any entry of the
/// list is judged exactly as if the subscription listed no kinds at all.
pub proof fn lemma_listed_kinds_combine_with_or(sub: SubscriptionFilter, unfiltered: SubscriptionFilter, msg: MessageFacts, i: int)
    requires
        unfiltered.kinds@.len() == 0,
        unfiltered.last_delivered_seq == sub.last_delivered_seq,
        unfiltered.exclude_thinking == sub.exclude_thinking,
        unfiltered.only_from == sub.only_from,
        unfiltered.not_from == sub.not_from,
        0 <= i < sub.kinds@.len(),
        crate::room::opt_view(msg.meta_kind) == Some(sub.kinds@[i]@),
    ensures
        filter_passes(sub, msg) == filter_passes(unfiltered, msg),
{
    assert(strs(sub.kinds@)[i] == sub.kinds@[i]@);
    assert(strs(sub.kinds@).contains(sub.kinds@[i]@));
}

/// A subscription that lists kinds never receives a message of a kind it
/// does not list, nor one without a kind.
pub proof fn lemma_unlisted_kind_is_filtered_out(sub: SubscriptionFilter, msg: MessageFacts)
    requires
        sub.kinds@.len() > 0,
        forall|i: int| 0 <= i < sub.kinds@.len() ==> crate::room::opt_view(msg.meta_kind) != Some(#[trigger] sub.kinds@[i]@),
    ensures
        !filter_passes(sub, msg),
{
    if let Some(k) = crate::room::opt_view(msg.meta_kind) {
        if strs(sub.kinds@).contains(k) {
            let j = choose|j: int| 0 <= j < strs(sub.kinds@).len() && strs(sub.kinds@)[j] == k;
            assert(strs(sub.kinds@)[j] == sub.kinds@[j]@);
        }
    }
}

/// Decide whether `msg` matches `sub`'s filter.
pub fn matches_filter(sub: &SubscriptionFilter, msg: &MessageFacts) -> (r: bool)
    ensures
        r == filter_passes(*sub, *msg),
{
    proof {
        reveal_strlit("system");
        reveal_strlit("thinking");
    }
    if msg.seq <= sub.last_delivered_seq {
        return false;
    }
    let is_type = |want: &str| -> (b: bool)
        ensures
            b == (crate::room::opt_view(msg.meta_type) == Some(want@)),
    {
        match &msg.meta_type {
            Some(t) => str_eq(t.as_str(), want),
            None => false,
        }
    };
    if is_type("system") {
        proof { assert("system"@ =~= system_type()); }
        return false;
    }
    proof { assert("system"@ =~= system_type()); }
    if sub.exclude_thinking && is_type("thinking") {
        proof { assert("thinking"@ =~= thinking_type()); }
        return false;
    }
    proof { assert("thinking"@ =~= thinking_type()); }
    if sub.kinds.len() > 0 {
        let any_match = match &msg.meta_kind {
            Some(k) => crate::text::contains_str(&sub.kinds, k.as_str()),
            None => false,
        };
        if !any_match {
            return false;
        }
    }
    if let Some(only) = &sub.only_from {
        if !str_eq(msg.agent_name.as_str(), only.as_str()) {
            return false;
        }
    }
    if let Some(skip) = &sub.not_from {
        if str_eq(msg.agent_name.as_str(), skip.as_str()) {
            return false;
        }
    }
    true
}

/// The subscriptions, by position, whose filters `msg` passes.
pub fn matching_subscriptions(subs: &Vec<SubscriptionFilter>, msg: &MessageFacts) -> (r: Vec<usize>)
    ensures
        forall|j: int| 0 <= j < r@.len() ==> #[trigger] r@[j] < subs@.len(),
        forall|j: int, k: int| 0 <= j < k < r@.len() ==> #[trigger] r@[j] < #[trigger] r@[k],
        forall|i: int| 0 <= i < subs@.len() ==> (r@.contains(i as usize) <==> #[trigger] filter_passes(subs@[i], *msg)),
{
    let mut out: Vec<usize> = Vec::new();
    let mut i: usize = 0;
    while i < subs.len()
        invariant
            i <= subs@.len(),
            forall|j: int| 0 <= j < out@.len() ==> #[trigger] out@[j] < i,
            forall|j: int, k: int| 0 <= j < k < out@.len() ==> #[trigger] out@[j] < #[trigger] out@[k],
            forall|x: int| 0 <= x < i ==> (out@.contains(x as usize) <==> #[trigger] filter_passes(subs@[x], *msg)),
        decreases subs@.len() - i,
    {
        let ghost prev = out@;
        if matches_filter(&subs[i], msg) {
            out.push(i);
        }
        proof {
            assert forall|x: int| 0 <= x < i + 1 implies (out@.contains(x as usize) <==> #[trigger] filter_passes(subs@[x], *msg)) by {
                if x < i {
                    if out@.contains(x as usize) {
                        let y = choose|y: int| 0 <= y < out@.len() && out@[y] == x as usize;
                        if y < prev.len() {
                            assert(prev[y] == x as usize);
                        }
                    }
                    if prev.contains(x as usize) {
                        let y = choose|y: int| 0 <= y < prev.len() && prev[y] == x as usize;
                        assert(out@[y] == x as usize);
                    }
                } else {
                    if out@.contains(x as usize) {
                        let y = choose|y: int| 0 <= y < out@.len() && out@[y] == x as usize;
                        if y < prev.len() {
                            assert(prev[y] < i);
                        }
                    }
                    if filter_passes(subs@[x], *msg) {
                        assert(out@[out@.len() - 1] == x as usize);
                    }
                }
            }
        }
        i = i + 1;
    }
    out
}

// ---------------------------------------------------------------------------
// Webhook targets
// ---------------------------------------------------------------------------

/// An IP address as plain values.
#[derive(Debug, Clone, Copy, PartialEq, Eq, Structural)]
pub enum IpAddress {
    V4(u8, u8, u8, u8),
    V6(u16, u16, u16, u16, u16, u16, u16, u16),
}

/// Whether an IPv4 address may be the target of a webhook: not private,
/// loopback, link-local, multicast, broadcast, unspecified, in `0.0.0.0/8`,
/// in the shared range `100.64.0.0/10`, in the benchmarking range
/// `198.18.0.0/15`, nor the cloud metadata address.
pub open spec fn public_v4(a: u8, b: u8, c: u8, d: u8) -> bool {
    let private = a == 10 || (a == 172 && 16 <= b <= 31) || (a == 192 && b == 168);
    let loopback = a == 127;
    let link_local = a == 169 && b == 254;
    let multicast = 224 <= a <= 239;
    let broadcast = a == 255 && b == 255 && c == 255 && d == 255;
    let unspecified = a == 0 && b == 0 && c == 0 && d == 0;
    !(private || loopback || link_local || multicast || broadcast || unspecified || a == 0
        || (a == 100 && 64 <= b <= 127) || (a == 198 && (b == 18 || b == 19))
        || (a == 169 && b == 254 && c == 169 && d == 254))
}

/// Whether an IPv6 address may be the target of a webhook: not loopback,
/// unspecified, multicast, unique-local (`fc00::/7`), link-local
/// (`fe80::/10`), nor an IPv4-mapped form of a non-public IPv4 address.
pub open spec fn public_v6(s0: u16, s1: u16, s2: u16, s3: u16, s4: u16, s5: u16, s6: u16, s7: u16) -> bool {
    let zero_prefix = s0 == 0 && s1 == 0 && s2 == 0 && s3 == 0 && s4 == 0 && s5 == 0 && s6 == 0;
    let loopback = zero_prefix && s7 == 1;
    let unspecified = zero_prefix && s7 == 0;
    let multicast = s0 >= 0xff00;
    let unique_local = 0xfc00 <= s0 <= 0xfdff;
    let link_local = 0xfe80 <= s0 <= 0xfebf;
    let mapped = s0 == 0 && s1 == 0 && s2 == 0 && s3 == 0 && s4 == 0 && s5 == 0xffff;
    !(loopback || unspecified || multicast || unique_local || link_local
        || (mapped && !public_v4((s6 / 256) as u8, (s6 % 256) as u8, (s7 / 256) as u8, (s7 % 256) as u8)))
}

pub open spec fn public_ip(ip: IpAddress) -> bool {
    match ip {
        IpAddress::V4(a, b, c, d) => public_v4(a, b, c, d),
        IpAddress::V6(s0, s1, s2, s3, s4, s5, s6, s7) => public_v6(s0, s1, s2, s3, s4, s5, s6, s7),
    }
}

fn is_public_v4(a: u8, b: u8, c: u8, d: u8) -> (r: bool)
    ensures
        r == public_v4(a, b, c, d),
{
    let private = a == 10 || (a == 172 && 16 <= b && b <= 31) || (a == 192 && b == 168);
    let loopback = a == 127;
    let link_local = a == 169 && b == 254;
    let multicast = 224 <= a && a <= 239;
    let broadcast = a == 255 && b == 255 && c == 255 && d == 255;
    let unspecified = a == 0 && b == 0 && c == 0 && d == 0;
    !(private || loopback || link_local || multicast || broadcast || unspecified || a == 0
        || (a == 100 && 64 <= b && b <= 127) || (a == 198 && (b == 18 || b == 19))
        || (a == 169 && b == 254 && c == 169 && d == 254))
}

/// Whether `ip` may be the target of a webhook.
pub fn is_public_ip(ip: IpAddress) -> (r: bool)
    ensures
        r == public_ip(ip),
{
    match ip {
        IpAddress::V4(a, b, c, d) => is_public_v4(a, b, c, d),
        IpAddress::V6(s0, s1, s2, s3, s4, s5, s6, s7) => {
            let zero_prefix = s0 == 0 && s1 == 0 && s2 == 0 && s3 == 0 && s4 == 0 && s5 == 0 && s6 == 0;
            let loopback = zero_prefix && s7 == 1;
            let unspecified = zero_prefix && s7 == 0;
            let multicast = s0 >= 0xff00;
            let unique_local = 0xfc00 <= s0 && s0 <= 0xfdff;
            let link_local = 0xfe80 <= s0 && s0 <= 0xfebf;
            let mapped = s0 == 0 && s1 == 0 && s2 == 0 && s3 == 0 && s4 == 0 && s5 == 0xffff;
            let mapped_private = mapped && !is_public_v4((s6 / 256) as u8, (s6 % 256) as u8, (s7 / 256) as u8, (s7 % 256) as u8);
            !(loopback || unspecified || multicast || unique_local || link_local || mapped_private)
        }
    }
}

/// A webhook URL as the checks read it.
pub struct UrlParts {
    pub scheme: String,
    pub has_username: bool,
    pub has_password: bool,
    pub host: Option<String>,
    pub port: Option<u16>,
}

/// Why a webhook target is refused.
#[derive(Debug, Clone, Copy, PartialEq, Eq, Structural)]
pub enum TargetError {
    NotHttp,
    Credentials,
    NoHost,
    Localhost,
    NoPort,
    NotPublic,
}

/// The message the server answers a refused webhook target with.
pub open spec fn target_error_text(e: TargetError) -> Seq<char> {
    match e {
        TargetError::NotHttp => "webhook_url must be http(s)"@,
        TargetError::Credentials => "webhook_url credentials are not allowed"@,
        TargetError::NoHost => "webhook_url requires a host"@,
        TargetError::Localhost => "webhook_url may not target localhost"@,
        TargetError::NoPort => "webhook_url requires a known port"@,
        TargetError::NotPublic => "webhook_url resolves to a private, local, or reserved address"@,
    }
}

impl TargetError {
    /// The message the server answers with.
    pub fn message(&self) -> (r: String)
        ensures
            r@ == target_error_text(*self),
    {
        match self {
            TargetError::NotHttp => owned("webhook_url must be http(s)"),
            TargetError::Credentials => owned("webhook_url credentials are not allowed"),
            TargetError::NoHost => owned("webhook_url requires a host"),
            TargetError::Localhost => owned("webhook_url may not target localhost"),
            TargetError::NoPort => owned("webhook_url requires a known port"),
            TargetError::NotPublic => owned("webhook_url resolves to a private, local, or reserved address"),
        }
    }
}

/// `s` in ASCII lower case.
pub open spec fn ascii_lower(s: Seq<char>) -> Seq<char> {
    s.map_values(|c: char| if 'A' <= c <= 'Z' { ((c as int) + 32) as char } else { c })
}

pub open spec fn localhost_name() -> Seq<char> {
    seq!['l', 'o', 'c', 'a', 'l', 'h', 'o', 's', 't']
}

/// Whether a host names the local machine: `localhost` in any case, or a
/// name ending in `.localhost`.
pub open spec fn is_localhost(host: Seq<char>) -> bool {
    ascii_lower(host) == localhost_name()
        || (host.len() >= 10 && host.subrange(host.len() - 10, host.len() as int) == seq!['.'] + localhost_name())
}

fn lower_char(c: char) -> (r: char)
    ensures
        r == (if 'A' <= c <= 'Z' { ((c as int) + 32) as char } else { c }),
{
    if 'A' <= c && c <= 'Z' {
        ((c as u32) + 32) as u8 as char
    } else {
        c
    }
}

fn host_is_localhost(host: &str) -> (r: bool)
    ensures
        r == is_localhost(host@),
{
    let chars = crate::text::to_chars(host);
    let word = "localhost";
    proof { reveal_strlit("localhost"); }
    let n = chars.len();
    let mut equal_ci = n == 9;
    let mut i: usize = 0;
    let target = crate::text::to_chars(word);
    proof { assert(target@ =~= localhost_name()); }
    if equal_ci {
        while i < 9
            invariant
                n == 9,
                chars@ == host@,
                chars@.len() == 9,
                target@ == localhost_name(),
                i <= 9,
                equal_ci == forall|j: int| 0 <= j < i ==> #[trigger] ascii_lower(host@)[j] == localhost_name()[j],
            decreases 9 - i,
        {
            let lc = lower_char(chars[i]);
            proof { assert(ascii_lower(host@)[i as int] == lc); }
            if lc != target[i] {
                equal_ci = false;
            }
            i = i + 1;
        }
        proof {
            if equal_ci {
                assert(ascii_lower(host@) =~= localhost_name());
            } else {
                assert(ascii_lower(host@) != localhost_name());
            }
        }
    }
    if equal_ci {
        return true;
    }
    if n < 10 {
        return false;
    }
    let mut suffix = chars[n - 10] == '.';
    let mut k: usize = 0;
    while k < 9
        invariant
            chars@ == host@,
            n == chars@.len(),
            n >= 10,
            target@ == localhost_name(),
            k <= 9,
            suffix == (chars@[n - 10] == '.' && forall|j: int| 0 <= j < k ==> #[trigger] chars@[n - 9 + j] == localhost_name()[j]),
        decreases 9 - k,
    {
        if chars[n - 9 + k] != target[k] {
            suffix = false;
        }
        k = k + 1;
    }
    proof {
        let tail = host@.subrange(n - 10, n as int);
        if suffix {
            assert forall|j: int| 0 <= j < 10 implies #[trigger] tail[j] == (seq!['.'] + localhost_name())[j] by {
                if j == 0 {
                    assert(tail[0] == chars@[n - 10]);
                } else {
                    assert(tail[j] == chars@[n - 9 + (j - 1)]);
                }
            }
            assert(tail =~= seq!['.'] + localhost_name());
        } else {
            if tail == seq!['.'] + localhost_name() {
                assert(tail[0] == '.');
                assert forall|j: int| 0 <= j < 9 implies #[trigger] chars@[n - 9 + j] == localhost_name()[j] by {
                    assert(tail[j + 1] == chars@[n - 9 + j]);
                }
            }
        }
        assert(ascii_lower(host@) != localhost_name());
    }
    suffix
}

/// The checks a webhook URL must pass before and after its host is resolved
/// to `addresses`. With `allow_private` the host and the addresses may be
/// local, but at least one address is still required.
pub open spec fn target_check(url: UrlParts, allow_private: bool, addresses: Seq<IpAddress>) -> Result<(), TargetError> {
    if url.scheme@ != seq!['h', 't', 't', 'p'] && url.scheme@ != seq!['h', 't', 't', 'p', 's'] {
        Err(TargetError::NotHttp)
    } else if url.has_username || url.has_password {
        Err(TargetError::Credentials)
    } else if url.host is None {
        Err(TargetError::NoHost)
    } else if !allow_private && is_localhost(url.host->Some_0@) {
        Err(TargetError::Localhost)
    } else if url.port is None {
        Err(TargetError::NoPort)
    } else if addresses.len() == 0 || (!allow_private && exists|i: int| 0 <= i < addresses.len() && !public_ip(#[trigger] addresses[i])) {
        Err(TargetError::NotPublic)
    } else {
        Ok(())
    }
}

/// Without `allow_private`, one address that is not public refuses the
/// target wherever it stands in the list: the verdict is the one that
/// address would get alone.
pub proof fn lemma_private_address_anywhere_refuses(url: UrlParts, addresses: Seq<IpAddress>, i: int)
    requires
        0 <= i < addresses.len(),
        !public_ip(addresses[i]),
    ensures
        target_check(url, false, addresses) == target_check(url, false, seq![addresses[i]]),
        target_check(url, false, addresses) is Err,
{
    assert(seq![addresses[i]][0] == addresses[i]);
}

/// Only the set of resolved addresses matters, not their order or repeats.
pub proof fn lemma_address_order_is_irrelevant(url: UrlParts, allow_private: bool, a: Seq<IpAddress>, b: Seq<IpAddress>)
    requires
        a.to_set() == b.to_set(),
    ensures
        target_check(url, allow_private, a) == target_check(url, allow_private, b),
{
    if a.len() > 0 {
        assert(a.to_set().contains(a[0]));
    }
    if b.len() > 0 {
        assert(b.to_set().contains(b[0]));
    }
    if exists|i: int| 0 <= i < a.len() && !public_ip(#[trigger] a[i]) {
        let i = choose|i: int| 0 <= i < a.len() && !public_ip(#[trigger] a[i]);
        assert(a.to_set().contains(a[i]));
        assert(b.to_set().contains(a[i]));
        let j = choose|j: int| 0 <= j < b.len() && b[j] == a[i];
        assert(!public_ip(b[j]));
    }
    if exists|j: int| 0 <= j < b.len() && !public_ip(#[trigger] b[j]) {
        let j = choose|j: int| 0 <= j < b.len() && !public_ip(#[trigger] b[j]);
        assert(b.to_set().contains(b[j]));
        assert(a.to_set().contains(b[j]));
        let i = choose|i: int| 0 <= i < a.len() && a[i] == b[j];
        assert(!public_ip(a[i]));
    }
}

/// Check a webhook target: the URL's parts and the addresses its host
/// resolved to.
pub fn check_webhook_target(url: &UrlParts, allow_private: bool, addresses: &Vec<IpAddress>) -> (r: Result<(), TargetError>)
    ensures
        r == target_check(*url, allow_private, addresses@),
{
    proof {
        reveal_strlit("http");
        reveal_strlit("https");
        assert("http"@ =~= seq!['h', 't', 't', 'p']);
        assert("https"@ =~= seq!['h', 't', 't', 'p', 's']);
    }
    if !str_eq(url.scheme.as_str(), "http") && !str_eq(url.scheme.as_str(), "https") {
        return Err(TargetError::NotHttp);
    }
    if url.has_username || url.has_password {
        return Err(TargetError::Credentials);
    }
    let host = match &url.host {
        Some(h) => h,
        None => return Err(TargetError::NoHost),
    };
    if !allow_private && host_is_localhost(host.as_str()) {
        return Err(TargetError::Localhost);
    }
    if url.port.is_none() {
        return Err(TargetError::NoPort);
    }
    if addresses.len() == 0 {
        return Err(TargetError::NotPublic);
    }
    if !allow_private {
        let mut all_public = true;
        let mut i: usize = 0;
        while i < addresses.len()
            invariant
                i <= addresses@.len(),
                all_public == forall|j: int| 0 <= j < i ==> public_ip(#[trigger] addresses@[j]),
            decreases addresses@.len() - i,
        {
            if !is_public_ip(addresses[i]) {
                all_public = false;
            }
            i = i + 1;
        }
        if !all_public {
            return Err(TargetError::NotPublic);
        }
    }
    Ok(())
}

// ---------------------------------------------------------------------------
// Delivery
// ---------------------------------------------------------------------------

/// Seconds to wait after each failed attempt; after this many failures the
/// subscription is marked failed.
pub open spec fn retry_schedule() -> Seq<u64> {
    seq![1, 4, 16, 64, 256]
}

/// Delay before retry number `idx + 1`, if the schedule goes that far.
pub fn retry_delay_secs(idx: usize) -> (r: Option<u64>)
    ensures
        r == (if idx < retry_schedule().len() { Some(retry_schedule()[idx as int]) } else { None::<u64> }),
{
    match idx {
        0 => Some(1),
        1 => Some(4),
        2 => Some(16),
        3 => Some(64),
        4 => Some(256),
        _ => None,
    }
}

/// Result of looking something up in the store.
#[derive(Debug, Clone, Copy, PartialEq, Eq, Structural)]
pub enum Lookup {
    Found,
    Missing,
    Failed,
}

/// Where a delivery attempt stands.
#[derive(Debug, Clone, Copy, PartialEq, Eq, Structural)]
pub enum DeliveryStage {
    LoadSubscription,
    LoadMessage,
    Connect,
    Send,
    Finished,
}

/// What the outside world reported for the current stage.
pub enum DeliveryEvent {
    /// The subscription lookup, and whether the subscription is active.
    Subscription(Lookup, bool),
    /// The message lookup.
    Message(Lookup),
    /// Whether a client pinned to a public address of the target was set up.
    Connected(bool),
    /// The outcome of the POST: `Ok` for a 2xx answer, else why not.
    Sent(Result<(), String>),
}

/// What to do next.
pub enum DeliveryAction {
    LoadMessage,
    Connect,
    Send,
    /// Delete the queued delivery; nothing else.
    DropDelivery,
    /// Leave everything as it is (a store error).
    Abandon,
    /// Mark the subscription failed with this attempt count (its target is refused).
    BlockSubscription { attempts: i64 },
    /// Delete the queued delivery and advance the subscription's cursor.
    Delivered { advance_to: i64 },
    /// Keep the delivery for another attempt at this time.
    Retry { next_attempt_ms: i64, attempts: i64, error: String },
    /// Delete the queued delivery and mark the subscription failed.
    GiveUp { attempts: i64 },
}

/// The retry index after a failure, as `(attempts + 1) as usize` less one,
/// saturating at zero.
pub open spec fn retry_index(new_attempts: i64) -> int {
    let n = new_attempts as usize;
    if n == 0 { 0 } else { n - 1 }
}

/// A queued delivery of one message to one subscription.
pub struct PendingDelivery {
    pub delivery_id: String,
    pub subscription_id: String,
    pub message_seq: i64,
    pub message_id: String,
    pub attempts: i64,
}

/// A failing delivery is given up at its failure number
/// `retry_schedule().len()`: while fewer failures than that have happened it
/// is retried, waiting the schedule's entry for its failure count, and the
/// failure that reaches the length marks the subscription failed.
pub proof fn lemma_retries_are_bounded(attempts: i64)
    requires
        0 <= attempts < i64::MAX,
        attempts + 1 <= usize::MAX,
    ensures
        retry_index((attempts + 1) as i64) == attempts,
        attempts + 1 >= retry_schedule().len() <==> retry_index((attempts + 1) as i64) + 1 >= retry_schedule().len(),
{
    assert(((attempts + 1) as i64) as usize == attempts + 1);
}

/// One step of a webhook delivery: from the stage and what was reported,
/// the next stage and action for the queued `delivery` at `now_ms`.
pub fn delivery_step(stage: DeliveryStage, event: DeliveryEvent, delivery: &PendingDelivery, now_ms: i64)
    -> (r: (DeliveryStage, DeliveryAction))
    requires
        delivery.attempts < i64::MAX,
        now_ms + 256_000 <= i64::MAX,
    ensures
        ({
            let (next, action) = r;
            let attempts = delivery.attempts;
            let message_seq = delivery.message_seq;
            match (stage, event) {
                (DeliveryStage::LoadSubscription, DeliveryEvent::Subscription(l, active)) => match l {
                    Lookup::Found => if active {
                        next == DeliveryStage::LoadMessage && action is LoadMessage
                    } else {
                        next == DeliveryStage::Finished && action is DropDelivery
                    },
                    Lookup::Missing => next == DeliveryStage::Finished && action is DropDelivery,
                    Lookup::Failed => next == DeliveryStage::Finished && action is Abandon,
                },
                (DeliveryStage::LoadMessage, DeliveryEvent::Message(l)) => match l {
                    Lookup::Found => next == DeliveryStage::Connect && action is Connect,
                    Lookup::Missing => next == DeliveryStage::Finished && action is DropDelivery,
                    Lookup::Failed => next == DeliveryStage::Finished && action is Abandon,
                },
                (DeliveryStage::Connect, DeliveryEvent::Connected(ok)) => if ok {
                    next == DeliveryStage::Send && action is Send
                } else {
                    next == DeliveryStage::Finished && action == (DeliveryAction::BlockSubscription { attempts: (attempts + 1) as i64 })
                },
                (DeliveryStage::Send, DeliveryEvent::Sent(outcome)) => next == DeliveryStage::Finished && match outcome {
                    Ok(_) => action == (DeliveryAction::Delivered { advance_to: message_seq }),
                    Err(e) => if retry_index((attempts + 1) as i64) + 1 >= retry_schedule().len() {
                        action == (DeliveryAction::GiveUp { attempts: (attempts + 1) as i64 })
                    } else {
                        &&& action matches DeliveryAction::Retry { next_attempt_ms, attempts: a, error }
                        &&& a == attempts + 1
                        &&& error@ == e@
                        &&& next_attempt_ms == now_ms + 1000 * retry_schedule()[retry_index((attempts + 1) as i64)]
                    },
                },
                _ => next == DeliveryStage::Finished && action is Abandon,
            }
        }),
{
    let attempts = delivery.attempts;
    let message_seq = delivery.message_seq;
    match (stage, event) {
        (DeliveryStage::LoadSubscription, DeliveryEvent::Subscription(l, active)) => match l {
            Lookup::Found => if active {
                (DeliveryStage::LoadMessage, DeliveryAction::LoadMessage)
            } else {
                (DeliveryStage::Finished, DeliveryAction::DropDelivery)
            },
            Lookup::Missing => (DeliveryStage::Finished, DeliveryAction::DropDelivery),
            Lookup::Failed => (DeliveryStage::Finished, DeliveryAction::Abandon),
        },
        (DeliveryStage::LoadMessage, DeliveryEvent::Message(l)) => match l {
            Lookup::Found => (DeliveryStage::Connect, DeliveryAction::Connect),
            Lookup::Missing => (DeliveryStage::Finished, DeliveryAction::DropDelivery),
            Lookup::Failed => (DeliveryStage::Finished, DeliveryAction::Abandon),
        },
        (DeliveryStage::Connect, DeliveryEvent::Connected(ok)) => if ok {
            (DeliveryStage::Send, DeliveryAction::Send)
        } else {
            (DeliveryStage::Finished, DeliveryAction::BlockSubscription { attempts: attempts + 1 })
        },
        (DeliveryStage::Send, DeliveryEvent::Sent(outcome)) => match outcome {
            Ok(_) => (DeliveryStage::Finished, DeliveryAction::Delivered { advance_to: message_seq }),
            Err(e) => {
                let new_attempts = attempts + 1;
                #[verifier::truncate]
                let n = new_attempts as usize;
                let idx = if n == 0 { 0 } else { n - 1 };
                if idx >= 4 {
                    return (DeliveryStage::Finished, DeliveryAction::GiveUp { attempts: new_attempts });
                }
                match retry_delay_secs(idx) {
                    None => (DeliveryStage::Finished, DeliveryAction::GiveUp { attempts: new_attempts }),
                    Some(secs) => {
                        let next_attempt_ms = now_ms + 1000 * (secs as i64);
                        (DeliveryStage::Finished, DeliveryAction::Retry { next_attempt_ms, attempts: new_attempts, error: e })
                    }
                }
            }
        },
        _ => (DeliveryStage::Finished, DeliveryAction::Abandon),
    }
}

/// How long the delivery worker sleeps when nothing is due: until the
/// earliest pending attempt, at most a minute; a minute when none is known.
pub fn idle_sleep_ms(earliest_pending_ms: Option<i64>, now_ms: i64) -> (r: u64)
    ensures
        r == match earliest_pending_ms {
            Some(t) => if t - now_ms <= 0 { 0 } else if t - now_ms >= 60_000 { 60_000 } else { (t - now_ms) as u64 },
            None => 60_000,
        },
{
    match earliest_pending_ms {
        Some(t) => {
            let delta: i128 = t as i128 - now_ms as i128;
            if delta <= 0 {
                0
            } else if delta >= 60_000 {
                60_000
            } else {
                delta as u64
            }
        }
        None => 60_000,
    }
}

} // verus!
