//! Resolved addresses, the outcome of resolving a validator, and the reading of
//! the endpoint text that an address search yields.

use vstd::prelude::*;
use vstd::string::*;

use crate::text;

verus! {

/// An address that a validator was found at.
pub struct ResolvedAddress {
    pub ip: String,
    pub port: i32,
    pub version: String,
}

pub struct AddressView {
    pub ip: Seq<char>,
    pub port: int,
    pub version: Seq<char>,
}

impl View for ResolvedAddress {
    type V = AddressView;

    open spec fn view(&self) -> AddressView {
        AddressView { ip: self.ip@, port: self.port as int, version: self.version@ }
    }
}

/// The outcome of resolving one validator.
pub struct Resolution {
    pub status: String,
    pub addresses: Vec<ResolvedAddress>,
    pub error: Option<String>,
}

pub struct ResolutionView {
    pub status: Seq<char>,
    pub addresses: Seq<AddressView>,
    pub error: Option<Seq<char>>,
}

impl View for Resolution {
    type V = ResolutionView;

    open spec fn view(&self) -> ResolutionView {
        ResolutionView {
            status: self.status@,
            addresses: self.addresses@.map_values(|a: ResolvedAddress| a@),
            error: text::opt_text(self.error),
        }
    }
}

impl ResolutionView {
    /// The resolution of a validator that was found.
    pub open spec fn resolved(address: AddressView) -> ResolutionView {
        ResolutionView { status: "resolved"@, addresses: seq![address], error: None }
    }

    /// The resolution of a validator whose lookup failed.
    pub open spec fn failed(error: Seq<char>) -> ResolutionView {
        ResolutionView { status: "failed"@, addresses: Seq::empty(), error: Some(error) }
    }

    /// The resolution of a validator without an ADNL address.
    pub open spec fn missing_adnl() -> ResolutionView {
        ResolutionView {
            status: "missing_adnl"@,
            addresses: Seq::empty(),
            error: Some("validator has no adnl_addr in active set"@),
        }
    }

    /// The resolution of a validator whose ADNL address is malformed.
    pub open spec fn invalid_adnl(adnl_addr: Seq<char>) -> ResolutionView {
        ResolutionView {
            status: "invalid_adnl"@,
            addresses: Seq::empty(),
            error: Some("adnl_addr must be 32 bytes hex, got "@ + adnl_addr),
        }
    }

    /// Whether an address is known.
    pub open spec fn is_resolved(self) -> bool {
        self.status == "resolved"@ && self.addresses.len() > 0
    }
}

impl Resolution {
    /// A validator that was found at `address`.
    pub fn resolved(address: ResolvedAddress) -> (r: Self)
        ensures
            r@ == ResolutionView::resolved(address@),
            r.status@ == "resolved"@,
            r.addresses@ == seq![address],
            r.error is None,
    {
        let mut addresses: Vec<ResolvedAddress> = Vec::new();
        addresses.push(address);
        let r = Self { status: "resolved".to_owned(), addresses, error: None };
        assert(r@.addresses =~= seq![address@]);
        r
    }

    /// A validator whose lookup ended in `error`.
    pub fn failed(error: String) -> (r: Self)
        ensures
            r@ == ResolutionView::failed(error@),
            r.status@ == "failed"@,
            r.addresses@.len() == 0,
            r.error == Some(error),
    {
        let r = Self { status: "failed".to_owned(), addresses: Vec::new(), error: Some(error) };
        assert(r@.addresses =~= Seq::<AddressView>::empty());
        r
    }

    /// A validator that has no ADNL address.
    pub fn missing_adnl() -> (r: Self)
        ensures
            r@ == ResolutionView::missing_adnl(),
            r.status@ == "missing_adnl"@,
            r.addresses@.len() == 0,
            r.error matches Some(error) && error@ == "validator has no adnl_addr in active set"@,
    {
        let r = Self {
            status: "missing_adnl".to_owned(),
            addresses: Vec::new(),
            error: Some("validator has no adnl_addr in active set".to_owned()),
        };
        assert(r@.addresses =~= Seq::<AddressView>::empty());
        r
    }

    /// A validator whose ADNL address is not 32 bytes of hex.
    pub fn invalid_adnl(adnl_addr: &str) -> (r: Self)
        ensures
            r@ == ResolutionView::invalid_adnl(adnl_addr@),
            r.status@ == "invalid_adnl"@,
            r.addresses@.len() == 0,
            r.error matches Some(error) && error@ == "adnl_addr must be 32 bytes hex, got "@
                + adnl_addr@,
    {
        let mut error: String = "adnl_addr must be 32 bytes hex, got ".to_owned();
        error.append(adnl_addr);
        let r = Self {
            status: "invalid_adnl".to_owned(),
            addresses: Vec::new(),
            error: Some(error),
        };
        assert(r@.addresses =~= Seq::<AddressView>::empty());
        r
    }

    /// Whether the validator was resolved to at least one address.
    pub fn is_resolved(&self) -> (r: bool)
        ensures
            r == self@.is_resolved(),
            r <==> self.status@ == "resolved"@ && self.addresses@.len() >= 1,
    {
        text::same_text(self.status.as_str(), "resolved") && !self.addresses.is_empty()
    }
}

/// Why the text of an endpoint could not be read.
#[derive(Clone, Copy, PartialEq, Eq, Structural, Debug)]
pub enum EndpointError {
    WithoutPort,
    InvalidPort,
}

impl EndpointError {
    /// The message for the endpoint text `value`.
    pub open spec fn text(self, value: Seq<char>) -> Seq<char> {
        match self {
            EndpointError::WithoutPort => "DHT returned address without port: "@ + value,
            EndpointError::InvalidPort => "DHT returned invalid port in "@ + value,
        }
    }

    /// Writes the message for the endpoint text `value`.
    pub fn message(&self, value: &str) -> (r: String)
        ensures
            r@ == self.text(value@),
    {
        let mut r: String = match self {
            EndpointError::WithoutPort => "DHT returned address without port: ".to_owned(),
            EndpointError::InvalidPort => "DHT returned invalid port in ".to_owned(),
        };
        r.append(value);
        r
    }
}

/// A text cut at its last colon into what stands before and behind it.
pub open spec fn cut_at_last_colon(s: Seq<char>) -> Option<(Seq<char>, Seq<char>)>
    decreases s.len(),
{
    if s.len() == 0 {
        None
    } else if s.last() == ':' {
        Some((s.drop_last(), Seq::empty()))
    } else {
        match cut_at_last_colon(s.drop_last()) {
            None => None,
            Some((before, behind)) => Some((before, behind.push(s.last()))),
        }
    }
}

pub open spec fn is_digit(c: char) -> bool {
    '0' <= c <= '9'
}

/// Whether a text is a nonempty run of decimal digits.
pub open spec fn is_numeral(s: Seq<char>) -> bool {
    s.len() > 0 && forall|i: int| 0 <= i < s.len() ==> is_digit(#[trigger] s[i])
}

/// The number that a run of decimal digits stands for.
pub open spec fn numeral_value(s: Seq<char>) -> int
    decreases s.len(),
{
    if s.len() == 0 {
        0
    } else {
        10 * numeral_value(s.drop_last()) + (s.last() as int - 48)
    }
}

/// Reads a 32-bit integer: an optional sign and decimal digits, in range.
pub open spec fn parse_i32(s: Seq<char>) -> Option<int> {
    let signed = s.len() > 0 && (s[0] == '-' || s[0] == '+');
    let digits = if signed {
        s.drop_first()
    } else {
        s
    };
    let value = if s.len() > 0 && s[0] == '-' {
        -numeral_value(digits)
    } else {
        numeral_value(digits)
    };
    if is_numeral(digits) && i32::MIN <= value <= i32::MAX {
        Some(value)
    } else {
        None
    }
}

/// The UDP address that the text `ip:port` stands for.
pub open spec fn endpoint(value: Seq<char>) -> Result<AddressView, EndpointError> {
    match cut_at_last_colon(value) {
        None => Err(EndpointError::WithoutPort),
        Some((ip, port)) => match parse_i32(port) {
            None => Err(EndpointError::InvalidPort),
            Some(port) => Ok(AddressView { ip, port, version: "udp4"@ }),
        },
    }
}

/// Where the last colon stands, if there is one.
proof fn lemma_cut(s: Seq<char>, k: int)
    requires
        -1 <= k < s.len(),
        k >= 0 ==> s[k] == ':',
        forall|j: int| k < j < s.len() ==> s[j] != ':',
    ensures
        k < 0 ==> cut_at_last_colon(s) is None,
        k >= 0 ==> cut_at_last_colon(s) == Some((s.take(k), s.skip(k + 1))),
    decreases s.len(),
{
    if s.len() > 0 {
        if s.last() == ':' {
            assert(k == s.len() - 1);
            assert(s.take(k) =~= s.drop_last());
            assert(s.skip(k + 1) =~= Seq::<char>::empty());
        } else {
            lemma_cut(s.drop_last(), k);
            if k >= 0 {
                assert(s.drop_last().take(k) =~= s.take(k));
                assert(s.drop_last().skip(k + 1).push(s.last()) =~= s.skip(k + 1));
            }
        }
    }
}

proof fn lemma_numeral_value_grows(s: Seq<char>, k: int)
    requires
        0 <= k <= s.len(),
        forall|i: int| 0 <= i < s.len() ==> is_digit(#[trigger] s[i]),
    ensures
        0 <= numeral_value(s.take(k)) <= numeral_value(s),
    decreases s.len(),
{
    if k == s.len() {
        assert(s.take(k) =~= s);
        if k > 0 {
            lemma_numeral_value_grows(s.drop_last(), k - 1);
            assert(s.drop_last().take(k - 1) =~= s.drop_last());
        }
    } else {
        lemma_numeral_value_grows(s.drop_last(), k);
        assert(s.drop_last().take(k) =~= s.take(k));
    }
}

/// Reads the text of a port.
fn read_port(s: &Vec<char>, from: usize) -> (r: Option<i32>)
    requires
        from <= s@.len(),
    ensures
        parse_i32(s@.skip(from as int)) == (match r {
            Some(port) => Some(port as int),
            None => None,
        }),
{
    let ghost port = s@.skip(from as int);
    let mut start: usize = from;
    let mut negative: bool = false;
    if from < s.len() && (s[from] == '-' || s[from] == '+') {
        negative = s[from] == '-';
        start = from + 1;
    }
    let ghost digits = s@.skip(start as int);
    proof {
        if start == from {
            assert(digits == port);
        } else {
            assert(digits =~= port.drop_first());
        }
    }
    if start == s.len() {
        return None;
    }
    let mut value: i64 = 0;
    let mut i: usize = start;
    while i < s.len()
        invariant
            start < s@.len(),
            start <= i <= s@.len(),
            digits == s@.skip(start as int),
            forall|j: int| 0 <= j < i - start ==> is_digit(#[trigger] digits[j]),
            value == numeral_value(digits.take(i - start)),
            0 <= value <= 2_147_483_648,
            port == s@.skip(from as int),
            negative == (port.len() > 0 && port[0] == '-'),
            (port.len() > 0 && (port[0] == '-' || port[0] == '+')) ==> digits == port.drop_first(),
            !(port.len() > 0 && (port[0] == '-' || port[0] == '+')) ==> digits == port,
        decreases s@.len() - i,
    {
        let c: char = s[i];
        assert(digits[i - start] == c);
        if c < '0' || c > '9' {
            return None;
        }
        let ghost before = digits.take(i - start);
        value = 10 * value + (c as i64 - 48);
        assert(digits.take(i + 1 - start).drop_last() =~= before);
        if value > 2_147_483_648 {
            proof {
                if is_numeral(digits) {
                    lemma_numeral_value_grows(digits, i + 1 - start);
                }
            }
            return None;
        }
        i = i + 1;
    }
    assert(digits.take(s@.len() - start) =~= digits);
    if negative {
        Some((-value) as i32)
    } else if value > 2_147_483_647 {
        None
    } else {
        Some(value as i32)
    }
}

/// Reads the display form of an address, `ip:port`, cut at its last colon.
pub fn endpoint_from_display(value: &str) -> (r: Result<ResolvedAddress, EndpointError>)
    ensures
        endpoint(value@) == (match r {
            Ok(address) => Ok(address@),
            Err(error) => Err(error),
        }),
        r matches Ok(address) ==> address.version@ == "udp4"@ && address.ip@.is_prefix_of(value@)
            && value@[address.ip@.len() as int] == ':',
{
    let chars: Vec<char> = text::chars_of(value);
    let mut i: usize = chars.len();
    while i > 0 && chars[i - 1] != ':'
        invariant
            0 <= i <= chars@.len(),
            forall|j: int| i <= j < chars@.len() ==> chars@[j] != ':',
        decreases i,
    {
        i = i - 1;
    }
    proof {
        lemma_cut(chars@, i - 1);
    }
    if i == 0 {
        return Err(EndpointError::WithoutPort);
    }
    match read_port(&chars, i) {
        None => Err(EndpointError::InvalidPort),
        Some(port) => {
            let ip: String = value.substring_char(0, i - 1).to_owned();
            assert(ip@ =~= chars@.take(i - 1));
            Ok(ResolvedAddress { ip, port, version: "udp4".to_owned() })
        },
    }
}

proof fn lemma_decimal_is_read_back(n: nat)
    ensures
        is_numeral(text::decimal(n)),
        numeral_value(text::decimal(n)) == n,
    decreases n,
{
    let s = text::decimal(n);
    if n < 10 {
        reveal_with_fuel(numeral_value, 2);
        assert(s.drop_last() =~= Seq::<char>::empty());
    } else {
        lemma_decimal_is_read_back(n / 10);
        assert(s.drop_last() =~= text::decimal(n / 10));
        assert forall|i: int| 0 <= i < s.len() implies is_digit(#[trigger] s[i]) by {
            if i < s.len() - 1 {
                assert(s[i] == text::decimal(n / 10)[i]);
            }
        }
    }
}

/// The text `ip:port` is read as that ip and port, whatever the ip holds.
pub proof fn law_printed_endpoint_is_read_back(ip: Seq<char>, port: nat)
    requires
        port <= i32::MAX,
    ensures
        endpoint(ip.push(':') + text::decimal(port)) == Ok::<AddressView, EndpointError>(
            AddressView { ip, port: port as int, version: "udp4"@ },
        ),
{
    let digits = text::decimal(port);
    let value = ip.push(':') + digits;
    lemma_decimal_is_read_back(port);
    assert forall|j: int| ip.len() < j < value.len() implies value[j] != ':' by {
        assert(value[j] == digits[j - ip.len() - 1]);
        assert(is_digit(digits[j - ip.len() - 1]));
    }
    lemma_cut(value, ip.len() as int);
    assert(value.take(ip.len() as int) =~= ip);
    assert(value.skip(ip.len() as int + 1) =~= digits);
    assert(is_digit(digits[0]));
}

/// A text `ip:port` with a negative port is read as that ip and port too, down to the
/// least 32-bit integer.
pub proof fn law_printed_negative_port_is_read_back(ip: Seq<char>, n: nat)
    requires
        1 <= n <= 2_147_483_648,
    ensures
        endpoint(ip.push(':') + (seq!['-'] + text::decimal(n))) == Ok::<AddressView, EndpointError>(
            AddressView { ip, port: -n, version: "udp4"@ },
        ),
{
    let digits = text::decimal(n);
    let port = seq!['-'] + digits;
    let value = ip.push(':') + port;
    lemma_decimal_is_read_back(n);
    assert forall|j: int| ip.len() < j < value.len() implies value[j] != ':' by {
        assert(value[j] == port[j - ip.len() - 1]);
        if j > ip.len() + 1 {
            assert(value[j] == digits[j - ip.len() - 2]);
            assert(is_digit(digits[j - ip.len() - 2]));
        }
    }
    lemma_cut(value, ip.len() as int);
    assert(value.take(ip.len() as int) =~= ip);
    assert(value.skip(ip.len() as int + 1) =~= port);
    assert(port.drop_first() =~= digits);
}

/// A validator counts as resolved if and only if it was found: not where its lookup
/// failed, where it has no ADNL address or where that is malformed.
pub proof fn law_only_found_validators_are_resolved(
    address: AddressView,
    error: Seq<char>,
    adnl_addr: Seq<char>,
)
    ensures
        ResolutionView::resolved(address).is_resolved(),
        !ResolutionView::failed(error).is_resolved(),
        !ResolutionView::missing_adnl().is_resolved(),
        !ResolutionView::invalid_adnl(adnl_addr).is_resolved(),
{
}

/// Each outcome of a resolution tells its status, the address that was found, if any, and
/// the reason why none was.
pub proof fn law_resolutions_tell_their_outcome(
    address: AddressView,
    error: Seq<char>,
    adnl_addr: Seq<char>,
)
    ensures
        ResolutionView::resolved(address).status == "resolved"@,
        ResolutionView::resolved(address).addresses == seq![address],
        ResolutionView::resolved(address).error is None,
        ResolutionView::failed(error).status == "failed"@,
        ResolutionView::failed(error).addresses.len() == 0,
        ResolutionView::failed(error).error == Some(error),
        ResolutionView::missing_adnl().status == "missing_adnl"@,
        ResolutionView::missing_adnl().addresses.len() == 0,
        ResolutionView::missing_adnl().error == Some("validator has no adnl_addr in active set"@),
        ResolutionView::invalid_adnl(adnl_addr).status == "invalid_adnl"@,
        ResolutionView::invalid_adnl(adnl_addr).addresses.len() == 0,
        ResolutionView::invalid_adnl(adnl_addr).error == Some(
            "adnl_addr must be 32 bytes hex, got "@ + adnl_addr,
        ),
{
}

/// Of any resolution: it counts as resolved if and only if its status says so and it has
/// an address.
pub proof fn law_resolved_means_status_and_address(resolution: ResolutionView)
    ensures
        resolution.is_resolved() <==> resolution.status == "resolved"@
            && resolution.addresses.len() >= 1,
{
}

/// The message of an endpoint error names the text that could not be read.
pub proof fn law_endpoint_errors_name_the_text(value: Seq<char>)
    ensures
        EndpointError::WithoutPort.text(value) == "DHT returned address without port: "@ + value,
        EndpointError::InvalidPort.text(value) == "DHT returned invalid port in "@ + value,
{
}

/// A text without a colon has no port.
pub proof fn law_text_without_colon_has_no_port(value: Seq<char>)
    requires
        !value.contains(':'),
    ensures
        endpoint(value) == Err::<AddressView, EndpointError>(EndpointError::WithoutPort),
{
    assert forall|j: int| 0 <= j < value.len() implies value[j] != ':' by {
        assert(value.contains(value[j]));
    }
    lemma_cut(value, -1);
}

/// The part behind the last colon is read, whatever stands in front of it.
proof fn lemma_port_part(ip: Seq<char>, port: Seq<char>)
    requires
        !port.contains(':'),
    ensures
        cut_at_last_colon(ip.push(':') + port) == Some((ip, port)),
{
    let value = ip.push(':') + port;
    assert forall|j: int| ip.len() < j < value.len() implies value[j] != ':' by {
        assert(value[j] == port[j - ip.len() - 1]);
        assert(port.contains(port[j - ip.len() - 1]));
    }
    lemma_cut(value, ip.len() as int);
    assert(value.take(ip.len() as int) =~= ip);
    assert(value.skip(ip.len() as int + 1) =~= port);
}

proof fn lemma_leading_zeros(zeros: nat, s: Seq<char>)
    ensures
        numeral_value(Seq::new(zeros, |i: int| '0') + s) == numeral_value(s),
    decreases zeros + s.len(),
{
    let all = Seq::new(zeros, |i: int| '0') + s;
    if s.len() > 0 {
        lemma_leading_zeros(zeros, s.drop_last());
        assert(all.drop_last() =~= Seq::new(zeros, |i: int| '0') + s.drop_last());
        assert(all.last() == s.last());
    } else if zeros > 0 {
        let fewer = (zeros - 1) as nat;
        lemma_leading_zeros(fewer, s);
        assert(all.drop_last() =~= Seq::new(fewer, |i: int| '0') + s);
        assert(all.last() == '0');
    }
}

/// A port of an optional sign, any zeros and a decimal numeral is read as the number that
/// it stands for where that is a 32-bit integer, and refused where it is not.
pub proof fn law_signed_port_is_read(ip: Seq<char>, sign: Seq<char>, zeros: nat, n: nat)
    requires
        sign.len() == 0 || sign == seq!['+'] || sign == seq!['-'],
    ensures
        ({
            let text = sign + Seq::new(zeros, |i: int| '0') + text::decimal(n);
            let port: int = if sign == seq!['-'] {
                -n
            } else {
                n as int
            };
            endpoint(ip.push(':') + text) == (if -0x8000_0000 <= port < 0x8000_0000 {
                Ok::<AddressView, EndpointError>(AddressView { ip, port, version: "udp4"@ })
            } else {
                Err(EndpointError::InvalidPort)
            })
        }),
{
    let digits = Seq::new(zeros, |i: int| '0') + text::decimal(n);
    let text = sign + Seq::new(zeros, |i: int| '0') + text::decimal(n);
    assert(text =~= sign + digits);
    lemma_decimal_is_read_back(n);
    lemma_leading_zeros(zeros, text::decimal(n));
    assert forall|j: int| 0 <= j < digits.len() implies is_digit(#[trigger] digits[j]) by {
        if j >= zeros {
            assert(digits[j] == text::decimal(n)[j - zeros]);
        }
    }
    if text.contains(':') {
        let j = choose|j: int| 0 <= j < text.len() && text[j] == ':';
        if j >= sign.len() {
            assert(text[j] == digits[j - sign.len()]);
            assert(is_digit(digits[j - sign.len()]));
        } else {
            assert(text[j] == sign[j]);
        }
        assert(false);
    }
    lemma_port_part(ip, text);
    assert(is_digit(digits[0]));
    if sign.len() == 0 {
        assert(sign != seq!['-']) by {
            assert(seq!['-'].len() == 1);
        }
        assert(text =~= digits);
    } else {
        assert(text[0] == sign[0]);
        assert(text.drop_first() =~= digits);
        assert(seq!['+'][0] == '+');
        assert(seq!['-'][0] == '-');
    }
}

/// A port that is not an optional sign and digits is refused: an empty one, a sign alone,
/// one with something else than a digit in it.
pub proof fn law_other_ports_are_refused(ip: Seq<char>, port: Seq<char>, i: int)
    requires
        !port.contains(':'),
        port.len() == 0 || {
            &&& 0 <= i < port.len()
            &&& !('0' <= port[i] <= '9')
            &&& i > 0 || port.len() == 1 || (port[0] != '+' && port[0] != '-')
        },
    ensures
        endpoint(ip.push(':') + port) == Err::<AddressView, EndpointError>(
            EndpointError::InvalidPort,
        ),
{
    lemma_port_part(ip, port);
    if port.len() > 0 {
        let signed = port[0] == '-' || port[0] == '+';
        if signed && port.len() > 1 {
            assert(port.drop_first()[i - 1] == port[i]);
            assert(!is_digit(port.drop_first()[i - 1]));
        } else if signed {
            assert(port.drop_first().len() == 0);
        } else {
            assert(!is_digit(port[i]));
        }
    }
}

/// An address and a resolution are seen with all that they hold.
pub proof fn law_resolutions_are_seen_whole(address: ResolvedAddress, resolution: Resolution)
    ensures
        address@.ip == address.ip@,
        address@.port == address.port,
        address@.version == address.version@,
        resolution@.status == resolution.status@,
        resolution@.addresses.len() == resolution.addresses@.len(),
        forall|i: int|
            0 <= i < resolution.addresses@.len() ==> #[trigger] resolution@.addresses[i]
                == resolution.addresses@[i]@,
        resolution.error matches Some(error) ==> resolution@.error == Some(error@),
        resolution.error is None ==> resolution@.error is None,
{
}

} // verus!
