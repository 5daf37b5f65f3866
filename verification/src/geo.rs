//! The geo records of ips: which ips to look up, in which batches, and what is kept
//! of the replies.

use vstd::prelude::*;
use vstd::string::*;

use crate::collect::{at_least_one, FullValidator};
use crate::keyed;
use crate::keyed::TextMap;
use crate::text;
use crate::text::same_text;

verus! {

/// A coordinate in degrees, as the bits of an IEEE 754 double.
#[derive(Clone, Copy, PartialEq, Eq, Structural, Debug)]
pub struct Coordinate {
    pub bits: u64,
}

/// What the geo service tells of an ip.
pub struct GeoRecord {
    pub status: String,
    pub message: Option<String>,
    pub query: String,
    pub country: Option<String>,
    pub country_code: Option<String>,
    pub region_name: Option<String>,
    pub city: Option<String>,
    pub lat: Option<Coordinate>,
    pub lon: Option<Coordinate>,
    pub isp: Option<String>,
    pub org: Option<String>,
    pub as_name: Option<String>,
}

pub struct GeoRecordView {
    pub status: Seq<char>,
    pub message: Option<Seq<char>>,
    pub query: Seq<char>,
    pub country: Option<Seq<char>>,
    pub country_code: Option<Seq<char>>,
    pub region_name: Option<Seq<char>>,
    pub city: Option<Seq<char>>,
    pub lat: Option<Coordinate>,
    pub lon: Option<Coordinate>,
    pub isp: Option<Seq<char>>,
    pub org: Option<Seq<char>>,
    pub as_name: Option<Seq<char>>,
}

impl View for GeoRecord {
    type V = GeoRecordView;

    open spec fn view(&self) -> GeoRecordView {
        GeoRecordView {
            status: self.status@,
            message: text::opt_text(self.message),
            query: self.query@,
            country: text::opt_text(self.country),
            country_code: text::opt_text(self.country_code),
            region_name: text::opt_text(self.region_name),
            city: text::opt_text(self.city),
            lat: self.lat,
            lon: self.lon,
            isp: text::opt_text(self.isp),
            org: text::opt_text(self.org),
            as_name: text::opt_text(self.as_name),
        }
    }
}

/// Whether a validator was resolved to an ip.
pub open spec fn resolved_to(validator: FullValidator, ip: Seq<char>) -> bool {
    exists|j: int|
        0 <= j < validator.resolution.addresses@.len() && (
        #[trigger] validator.resolution.addresses@[j]).ip@ == ip
}

/// Whether one of the validators was resolved to an ip.
pub open spec fn seen(validators: Seq<FullValidator>, ip: Seq<char>) -> bool {
    exists|i: int| 0 <= i < validators.len() && resolved_to(#[trigger] validators[i], ip)
}

/// Whether an ip is to be looked up.
pub open spec fn wanted(
    validators: Seq<FullValidator>,
    cache: Map<Seq<char>, GeoRecordView>,
    full_refresh: bool,
    ip: Seq<char>,
) -> bool {
    seen(validators, ip) && (full_refresh || !cache.contains_key(ip))
}

/// Whether a list of texts rises strictly.
pub open spec fn texts_rise(list: Seq<Seq<char>>) -> bool {
    forall|i: int, j: int|
        0 <= i < j < list.len() ==> text::text_before(#[trigger] list[i], #[trigger] list[j])
}

/// Whether `ips` are the ips to look up, each once and in order.
pub open spec fn is_check_list(
    ips: Seq<Seq<char>>,
    validators: Seq<FullValidator>,
    cache: Map<Seq<char>, GeoRecordView>,
    full_refresh: bool,
) -> bool {
    &&& texts_rise(ips)
    &&& forall|ip: Seq<char>|
        #[trigger] ips.contains(ip) <==> wanted(validators, cache, full_refresh, ip)
}

/// The ips to look up: those that validators were resolved to, without those that are
/// cached unless everything is refreshed.
pub fn ips_to_check(
    validators: &Vec<FullValidator>,
    cache: &TextMap<GeoRecord>,
    full_refresh: bool,
) -> (r: Vec<String>)
    ensures
        is_check_list(text::texts(r@), validators@, cache@, full_refresh),
{
    let mut found: TextMap<()> = TextMap::new();
    let mut i: usize = 0;
    while i < validators.len()
        invariant
            i <= validators@.len(),
            forall|ip: Seq<char>|
                #[trigger] found@.contains_key(ip) <==> wanted(
                    validators@.take(i as int),
                    cache@,
                    full_refresh,
                    ip,
                ),
        decreases validators@.len() - i,
    {
        let addresses = &validators[i].resolution.addresses;
        let ghost before = found@;
        let mut j: usize = 0;
        while j < addresses.len()
            invariant
                j <= addresses@.len(),
                forall|ip: Seq<char>|
                    #[trigger] found@.contains_key(ip) <==> before.contains_key(ip) || ((
                    full_refresh || !cache@.contains_key(ip)) && exists|k: int|
                        0 <= k < j && (#[trigger] addresses@[k]).ip@ == ip),
            decreases addresses@.len() - j,
        {
            let ghost so_far = found@;
            if full_refresh || !cache.contains_key(addresses[j].ip.as_str()) {
                found.insert(addresses[j].ip.clone(), ());
            }
            proof {
                let new = addresses@[j as int].ip@;
                assert forall|ip: Seq<char>| #[trigger] found@.contains_key(ip)
                    <==> before.contains_key(ip) || ((full_refresh || !cache@.contains_key(ip))
                    && exists|k: int|
                    0 <= k < j + 1 && (#[trigger] addresses@[k]).ip@ == ip) by {
                    assert(found@.contains_key(ip) ==> so_far.contains_key(ip) || ip == new);
                    assert(so_far.contains_key(ip) ==> found@.contains_key(ip));
                    if exists|k: int| 0 <= k < j + 1 && (#[trigger] addresses@[k]).ip@ == ip {
                        let k = choose|k: int|
                            0 <= k < j + 1 && (#[trigger] addresses@[k]).ip@ == ip;
                        assert(k < j || ip == new);
                    }
                }
            }
            j = j + 1;
        }
        proof {
            let validator = validators@[i as int];
            let longer = validators@.take(i + 1);
            let shorter = validators@.take(i as int);
            assert forall|ip: Seq<char>| #[trigger] found@.contains_key(ip) <==> wanted(
                longer,
                cache@,
                full_refresh,
                ip,
            ) by {
                assert(before.contains_key(ip) <==> wanted(shorter, cache@, full_refresh, ip));
                if seen(longer, ip) {
                    let k = choose|k: int|
                        0 <= k < longer.len() && resolved_to(#[trigger] longer[k], ip);
                    if k < i {
                        assert(resolved_to(shorter[k], ip));
                    } else {
                        assert(resolved_to(validator, ip));
                    }
                }
                if seen(shorter, ip) {
                    let k = choose|k: int|
                        0 <= k < shorter.len() && resolved_to(#[trigger] shorter[k], ip);
                    assert(resolved_to(longer[k], ip));
                }
                if resolved_to(validator, ip) {
                    assert(resolved_to(longer[i as int], ip));
                }
            }
        }
        i = i + 1;
    }
    assert(validators@.take(i as int) =~= validators@);
    let ghost all = found@;
    let entries: Vec<(String, ())> = found.into_entries();
    let ghost listed = entries@;
    let mut r: Vec<String> = Vec::new();
    for entry in it: entries
        invariant
            it.seq() == listed,
            r@.len() == it.index(),
            forall|k: int| 0 <= k < r@.len() ==> #[trigger] r@[k] == listed[k].0,
    {
        r.push(entry.0);
    }
    proof {
        let ips = text::texts(r@);
        assert forall|a: int, b: int| 0 <= a < b < ips.len() implies text::text_before(
            #[trigger] ips[a],
            #[trigger] ips[b],
        ) by {
            assert(text::text_before(listed[a].0@, listed[b].0@));
        }
        assert forall|ip: Seq<char>| #[trigger] ips.contains(ip) <==> wanted(
            validators@,
            cache@,
            full_refresh,
            ip,
        ) by {
            assert(all.contains_key(ip) <==> keyed::has_key(listed, ip));
            if ips.contains(ip) {
                let k = choose|k: int| 0 <= k < ips.len() && ips[k] == ip;
                assert(keyed::key_at(listed, ip, k));
            }
            if keyed::has_key(listed, ip) {
                let k = choose|k: int| keyed::key_at(listed, ip, k);
                assert(ips[k] == ip);
            }
        }
    }
    r
}

/// The cache with a reply of the geo service: each record that tells of success takes
/// the place of the one for its ip.
pub open spec fn with_reply(
    cache: Map<Seq<char>, GeoRecordView>,
    reply: Seq<GeoRecordView>,
) -> Map<Seq<char>, GeoRecordView>
    decreases reply.len(),
{
    if reply.len() == 0 {
        cache
    } else {
        let before = with_reply(cache, reply.drop_last());
        let record = reply.last();
        if record.status == "success"@ {
            before.insert(record.query, record)
        } else {
            before
        }
    }
}

/// The records of a reply.
pub open spec fn records(reply: Seq<GeoRecord>) -> Seq<GeoRecordView> {
    reply.map_values(|record: GeoRecord| record@)
}

/// A refresh of the geo cache, batch by batch.
pub struct GeoRefresh {
    cache: TextMap<GeoRecord>,
    ips: Vec<String>,
    batch_size: usize,
    lookups: usize,
}

pub struct GeoRefreshView {
    pub cache: Map<Seq<char>, GeoRecordView>,
    /// The ips to look up.
    pub ips: Seq<Seq<char>>,
    /// How many ips a batch holds at most.
    pub batch_size: nat,
    /// How many ips were looked up.
    pub lookups: nat,
}

impl GeoRefreshView {
    /// How many ips the next batch holds.
    pub open spec fn batch_len(self) -> int {
        if self.lookups + self.batch_size <= self.ips.len() {
            self.batch_size as int
        } else {
            self.ips.len() - self.lookups
        }
    }

    /// The ips to look up next.
    pub open spec fn batch(self) -> Seq<Seq<char>> {
        self.ips.subrange(self.lookups as int, self.lookups + self.batch_len())
    }

    /// Whether every ip was looked up.
    pub open spec fn is_done(self) -> bool {
        self.lookups == self.ips.len()
    }

    /// The refresh after the reply to a batch.
    pub open spec fn absorbed(self, reply: Seq<GeoRecordView>) -> GeoRefreshView {
        GeoRefreshView {
            cache: with_reply(self.cache, reply),
            lookups: (self.lookups + self.batch_len()) as nat,
            ..self
        }
    }
}

impl GeoRefresh {
    #[verifier::type_invariant]
    spec fn well_formed(self) -> bool {
        &&& self.batch_size > 0
        &&& self.lookups <= self.ips@.len()
    }
}

impl View for GeoRefresh {
    type V = GeoRefreshView;

    closed spec fn view(&self) -> GeoRefreshView {
        GeoRefreshView {
            cache: self.cache@,
            ips: text::texts(self.ips@),
            batch_size: self.batch_size as nat,
            lookups: self.lookups as nat,
        }
    }
}

impl GeoRefresh {
    /// A refresh of `cache` for `validators`, in batches of `batch_size` or of one
    /// where that is zero.
    pub fn start(
        cache: TextMap<GeoRecord>,
        validators: &Vec<FullValidator>,
        full_refresh: bool,
        batch_size: usize,
    ) -> (r: GeoRefresh)
        ensures
            r@.cache == cache@,
            is_check_list(r@.ips, validators@, cache@, full_refresh),
            r@.batch_size == (if batch_size == 0 {
                1
            } else {
                batch_size
            }),
            r@.lookups == 0,
    {
        let ips: Vec<String> = ips_to_check(validators, &cache, full_refresh);
        GeoRefresh { cache, ips, batch_size: at_least_one(batch_size), lookups: 0 }
    }

    /// The ips to look up next, or nothing where every ip was.
    pub fn next_batch(&self) -> (r: Option<Vec<String>>)
        ensures
            match r {
                Some(batch) => {
                    &&& !self@.is_done()
                    &&& text::texts(batch@) == self@.batch()
                    &&& 0 < batch@.len() <= self@.batch_size
                },
                None => self@.is_done(),
            },
    {
        proof {
            use_type_invariant(self);
        }
        if self.lookups == self.ips.len() {
            return None;
        }
        let end: usize = self.batch_end();
        let mut batch: Vec<String> = Vec::new();
        let mut i: usize = self.lookups;
        while i < end
            invariant
                self.lookups <= i <= end <= self.ips@.len(),
                batch@.len() == i - self.lookups,
                forall|k: int|
                    0 <= k < batch@.len() ==> #[trigger] batch@[k] == self.ips@[self.lookups + k],
            decreases end - i,
        {
            batch.push(self.ips[i].clone());
            i = i + 1;
        }
        assert(text::texts(batch@) =~= self@.batch());
        Some(batch)
    }

    fn batch_end(&self) -> (end: usize)
        ensures
            end == self@.lookups + self@.batch_len(),
            self.lookups <= end <= self.ips@.len(),
            self@.is_done() || self.lookups < end,
    {
        proof {
            use_type_invariant(self);
        }
        let left: usize = self.ips.len() - self.lookups;
        if self.batch_size <= left {
            self.lookups + self.batch_size
        } else {
            self.ips.len()
        }
    }

    /// Takes the reply to the batch that was due.
    pub fn absorb(self, reply: Vec<GeoRecord>) -> (r: GeoRefresh)
        ensures
            r@ == self@.absorbed(records(reply@)),
    {
        proof {
            use_type_invariant(&self);
        }
        let lookups: usize = self.batch_end();
        let ghost before = self@.cache;
        let ghost all = records(reply@);
        let mut cache: TextMap<GeoRecord> = self.cache;
        for record in it: reply
            invariant
                it.seq() == reply@,
                all == records(reply@),
                cache@ == with_reply(before, all.take(it.index() as int)),
        {
            proof {
                let longer = all.take(it.index() + 1);
                assert(longer.drop_last() =~= all.take(it.index() as int));
                assert(longer.last() == record@);
            }
            if same_text(record.status.as_str(), "success") {
                cache.insert(record.query.clone(), record);
            }
        }
        assert(all.take(all.len() as int) =~= all);
        GeoRefresh { cache, ips: self.ips, batch_size: self.batch_size, lookups }
    }

    /// The cache and how many ips were looked up.
    pub fn finish(self) -> (r: (TextMap<GeoRecord>, usize))
        ensures
            r.0@ == self@.cache,
            r.1 == self@.lookups,
    {
        (self.cache, self.lookups)
    }
}

/// The refresh after a reply to each of a number of batches.
pub open spec fn refreshed(
    start: GeoRefreshView,
    replies: Seq<Seq<GeoRecordView>>,
) -> GeoRefreshView
    decreases replies.len(),
{
    if replies.len() == 0 {
        start
    } else {
        refreshed(start, replies.drop_last()).absorbed(replies.last())
    }
}

/// The ips of the batches that were replied to, one batch behind the other.
pub open spec fn asked_ips(
    start: GeoRefreshView,
    replies: Seq<Seq<GeoRecordView>>,
) -> Seq<Seq<char>>
    decreases replies.len(),
{
    if replies.len() == 0 {
        Seq::empty()
    } else {
        asked_ips(start, replies.drop_last()) + refreshed(start, replies.drop_last()).batch()
    }
}

/// A refresh looks up each ip of its list once and in order, counts them, and ends: as
/// long as ips are left every batch is full.
pub proof fn law_each_ip_is_asked_once(start: GeoRefreshView, replies: Seq<Seq<GeoRecordView>>)
    requires
        start.lookups == 0,
        start.batch_size > 0,
    ensures
        asked_ips(start, replies) == start.ips.take(refreshed(start, replies).lookups as int),
        refreshed(start, replies).lookups <= start.ips.len(),
        refreshed(start, replies).is_done() ==> asked_ips(start, replies) == start.ips,
        !refreshed(start, replies).is_done() ==> refreshed(start, replies).lookups == replies.len()
            * start.batch_size,
        refreshed(start, replies).ips == start.ips,
        refreshed(start, replies).batch_size == start.batch_size,
    decreases replies.len(),
{
    if replies.len() == 0 {
        assert(asked_ips(start, replies) =~= start.ips.take(0));
        assert(0 * start.batch_size == 0);
    } else {
        let shorter = replies.drop_last();
        law_each_ip_is_asked_once(start, shorter);
        let before = refreshed(start, shorter);
        let after = refreshed(start, replies);
        assert(asked_ips(start, replies) =~= start.ips.take(after.lookups as int));
        assert(replies.len() * start.batch_size == shorter.len() * start.batch_size
            + start.batch_size) by (nonlinear_arith)
            requires
                replies.len() == shorter.len() + 1,
        ;
    }
    assert(start.ips.take(start.ips.len() as int) =~= start.ips);
}

/// A reply drops no entry of the cache, and changes only those of the ips that it
/// tells success of.
pub proof fn law_reply_keeps_cached_records(
    cache: Map<Seq<char>, GeoRecordView>,
    reply: Seq<GeoRecordView>,
    ip: Seq<char>,
)
    requires
        cache.contains_key(ip),
    ensures
        with_reply(cache, reply).contains_key(ip),
        (forall|k: int|
            0 <= k < reply.len() ==> (#[trigger] reply[k]).query != ip || reply[k].status
                != "success"@) ==> with_reply(cache, reply)[ip] == cache[ip],
    decreases reply.len(),
{
    if reply.len() > 0 {
        let shorter = reply.drop_last();
        law_reply_keeps_cached_records(cache, shorter, ip);
        if forall|k: int|
            0 <= k < reply.len() ==> (#[trigger] reply[k]).query != ip || reply[k].status
                != "success"@ {
            assert forall|k: int| 0 <= k < shorter.len() implies (#[trigger] shorter[k]).query != ip
                || shorter[k].status != "success"@ by {
                assert(shorter[k] == reply[k]);
            }
            assert(reply[reply.len() - 1] == reply.last());
        }
    }
}

/// The last record of a reply that tells success of an ip is the one that is cached.
pub proof fn law_successful_record_is_cached(
    cache: Map<Seq<char>, GeoRecordView>,
    reply: Seq<GeoRecordView>,
    k: int,
)
    requires
        0 <= k < reply.len(),
        reply[k].status == "success"@,
        forall|j: int|
            k < j < reply.len() ==> (#[trigger] reply[j]).query != reply[k].query || reply[j].status
                != "success"@,
    ensures
        with_reply(cache, reply).contains_key(reply[k].query),
        with_reply(cache, reply)[reply[k].query] == reply[k],
    decreases reply.len(),
{
    let shorter = reply.drop_last();
    if k < reply.len() - 1 {
        assert(shorter[k] == reply[k]);
        assert forall|j: int| k < j < shorter.len() implies (#[trigger] shorter[j]).query
            != shorter[k].query || shorter[j].status != "success"@ by {
            assert(shorter[j] == reply[j]);
        }
        law_successful_record_is_cached(cache, shorter, k);
        assert(reply[reply.len() - 1] == reply.last());
    }
}

/// The records of a number of replies, one reply behind the other.
pub open spec fn all_records(replies: Seq<Seq<GeoRecordView>>) -> Seq<GeoRecordView>
    decreases replies.len(),
{
    if replies.len() == 0 {
        Seq::empty()
    } else {
        all_records(replies.drop_last()) + replies.last()
    }
}

proof fn lemma_reply_behind_reply(
    cache: Map<Seq<char>, GeoRecordView>,
    one: Seq<GeoRecordView>,
    other: Seq<GeoRecordView>,
)
    ensures
        with_reply(with_reply(cache, one), other) == with_reply(cache, one + other),
    decreases other.len(),
{
    if other.len() == 0 {
        assert(one + other =~= one);
    } else {
        lemma_reply_behind_reply(cache, one, other.drop_last());
        assert((one + other).drop_last() =~= one + other.drop_last());
        assert((one + other).last() == other.last());
    }
}

/// A refresh leaves the cache that one reply with the records of all its replies, one
/// batch behind the other, would leave.
pub proof fn law_refresh_takes_replies_in_order(
    start: GeoRefreshView,
    replies: Seq<Seq<GeoRecordView>>,
)
    ensures
        refreshed(start, replies).cache == with_reply(start.cache, all_records(replies)),
    decreases replies.len(),
{
    if replies.len() > 0 {
        law_refresh_takes_replies_in_order(start, replies.drop_last());
        lemma_reply_behind_reply(start.cache, all_records(replies.drop_last()), replies.last());
    }
}

/// A refresh drops no entry of the cache, and changes only those of the ips that one of
/// its replies tells success of.
pub proof fn law_refresh_keeps_cached_records(
    start: GeoRefreshView,
    replies: Seq<Seq<GeoRecordView>>,
    ip: Seq<char>,
)
    requires
        start.cache.contains_key(ip),
    ensures
        refreshed(start, replies).cache.contains_key(ip),
        (forall|k: int|
            0 <= k < all_records(replies).len() ==> (#[trigger] all_records(replies)[k]).query != ip
                || all_records(replies)[k].status != "success"@) ==> refreshed(
            start,
            replies,
        ).cache[ip] == start.cache[ip],
{
    law_refresh_takes_replies_in_order(start, replies);
    law_reply_keeps_cached_records(start.cache, all_records(replies), ip);
}

/// Of all the records that the replies of a refresh tell success of an ip with, the last
/// is the one that is cached.
pub proof fn law_last_success_of_a_refresh_is_cached(
    start: GeoRefreshView,
    replies: Seq<Seq<GeoRecordView>>,
    k: int,
)
    requires
        0 <= k < all_records(replies).len(),
        all_records(replies)[k].status == "success"@,
        forall|j: int|
            k < j < all_records(replies).len() ==> (#[trigger] all_records(replies)[j]).query
                != all_records(replies)[k].query || all_records(replies)[j].status != "success"@,
    ensures
        refreshed(start, replies).cache.contains_key(all_records(replies)[k].query),
        refreshed(start, replies).cache[all_records(replies)[k].query] == all_records(replies)[k],
{
    law_refresh_takes_replies_in_order(start, replies);
    law_successful_record_is_cached(start.cache, all_records(replies), k);
}

/// Unless everything is refreshed, nothing is looked up once every ip is cached.
pub proof fn law_cached_ips_are_not_asked(
    ips: Seq<Seq<char>>,
    validators: Seq<FullValidator>,
    cache: Map<Seq<char>, GeoRecordView>,
)
    requires
        is_check_list(ips, validators, cache, false),
        forall|ip: Seq<char>| #[trigger] seen(validators, ip) ==> cache.contains_key(ip),
    ensures
        ips.len() == 0,
{
    if ips.len() > 0 {
        assert(ips.contains(ips[0]));
        assert(wanted(validators, cache, false, ips[0]));
        assert(false);
    }
}

/// On a full refresh the ips to look up are exactly those that validators were resolved to,
/// whatever the cache holds; without one, exactly those of them that the cache has no record
/// of. Either way they rise strictly, so that none is listed twice.
pub proof fn law_full_refresh_asks_every_ip(
    ips: Seq<Seq<char>>,
    validators: Seq<FullValidator>,
    cache: Map<Seq<char>, GeoRecordView>,
    full_refresh: bool,
    ip: Seq<char>,
)
    requires
        is_check_list(ips, validators, cache, full_refresh),
    ensures
        full_refresh ==> (ips.contains(ip) <==> exists|i: int, j: int|
            0 <= i < validators.len() && 0 <= j < validators[i].resolution.addresses@.len() && (
            #[trigger] validators[i].resolution.addresses@[j]).ip@ == ip),
        !full_refresh ==> (ips.contains(ip) <==> !cache.dom().contains(ip) && exists|
            i: int,
            j: int,
        |
            0 <= i < validators.len() && 0 <= j < validators[i].resolution.addresses@.len() && (
            #[trigger] validators[i].resolution.addresses@[j]).ip@ == ip),
        forall|a: int, b: int|
            0 <= a < b < ips.len() ==> text::text_before(#[trigger] ips[a], #[trigger] ips[b]),
        ips.no_duplicates(),
{
    assert(ips.contains(ip) <==> wanted(validators, cache, full_refresh, ip));
    if seen(validators, ip) {
        let i = choose|i: int| 0 <= i < validators.len() && resolved_to(#[trigger] validators[i], ip);
        let j = choose|j: int|
            0 <= j < validators[i].resolution.addresses@.len() && (
            #[trigger] validators[i].resolution.addresses@[j]).ip@ == ip;
        assert(validators[i].resolution.addresses@[j].ip@ == ip);
    }
    if exists|i: int, j: int|
        0 <= i < validators.len() && 0 <= j < validators[i].resolution.addresses@.len() && (
        #[trigger] validators[i].resolution.addresses@[j]).ip@ == ip {
        let (i, j) = choose|i: int, j: int|
            0 <= i < validators.len() && 0 <= j < validators[i].resolution.addresses@.len() && (
            #[trigger] validators[i].resolution.addresses@[j]).ip@ == ip;
        assert(resolved_to(validators[i], ip));
    }
    assert forall|a: int, b: int| 0 <= a < ips.len() && 0 <= b < ips.len() && a != b implies ips[a]
        != ips[b] by {
        text::lemma_text_before_irreflexive(ips[a]);
        if a < b {
            assert(text::text_before(ips[a], ips[b]));
        } else {
            assert(text::text_before(ips[b], ips[a]));
        }
    }
}

/// A full refresh asks for every ip that an ordinary one asks for, and what it asks for
/// besides is cached.
pub proof fn law_full_refresh_adds_the_cached_ips(
    ordinary: Seq<Seq<char>>,
    full: Seq<Seq<char>>,
    validators: Seq<FullValidator>,
    cache: Map<Seq<char>, GeoRecordView>,
    ip: Seq<char>,
)
    requires
        is_check_list(ordinary, validators, cache, false),
        is_check_list(full, validators, cache, true),
    ensures
        ordinary.contains(ip) ==> full.contains(ip),
        full.contains(ip) && !ordinary.contains(ip) ==> cache.contains_key(ip),
        full.contains(ip) && cache.contains_key(ip) ==> !ordinary.contains(ip),
{
    assert(ordinary.contains(ip) <==> wanted(validators, cache, false, ip));
    assert(full.contains(ip) <==> wanted(validators, cache, true, ip));
}

/// What a full refresh asks for does not rest on the cache.
pub proof fn law_full_refresh_ignores_the_cache(
    one: Seq<Seq<char>>,
    other: Seq<Seq<char>>,
    validators: Seq<FullValidator>,
    cache: Map<Seq<char>, GeoRecordView>,
    empty: Map<Seq<char>, GeoRecordView>,
    ip: Seq<char>,
)
    requires
        is_check_list(one, validators, cache, true),
        is_check_list(other, validators, empty, true),
    ensures
        one.contains(ip) <==> other.contains(ip),
{
    assert(one.contains(ip) <==> wanted(validators, cache, true, ip));
    assert(other.contains(ip) <==> wanted(validators, empty, true, ip));
}

/// A record is new in the cache only where the reply tells success of its ip.
pub proof fn law_only_successes_are_cached(
    cache: Map<Seq<char>, GeoRecordView>,
    reply: Seq<GeoRecordView>,
    ip: Seq<char>,
)
    ensures
        with_reply(cache, reply).contains_key(ip) && !cache.contains_key(ip) ==> exists|k: int|
            0 <= k < reply.len() && (#[trigger] reply[k]).query == ip && reply[k].status
                == "success"@,
        with_reply(cache, reply).contains_key(ip) && cache.contains_key(ip) && with_reply(
            cache,
            reply,
        )[ip] != cache[ip] ==> exists|k: int|
            0 <= k < reply.len() && (#[trigger] reply[k]).query == ip && reply[k].status
                == "success"@ && reply[k] == with_reply(cache, reply)[ip],
    decreases reply.len(),
{
    if reply.len() > 0 {
        let shorter = reply.drop_last();
        let last = reply[reply.len() - 1];
        law_only_successes_are_cached(cache, shorter, ip);
        assert(forall|k: int| 0 <= k < shorter.len() ==> shorter[k] == #[trigger] reply[k]);
        if last.query == ip && last.status == "success"@ {
            assert(reply[reply.len() - 1].query == ip);
        }
    }
}

/// A refresh is done when every ip was looked up and no earlier, and by then each batch but
/// the last was full: after as many batches as the ips fill.
pub proof fn law_refresh_ends_with_the_last_ip(
    start: GeoRefreshView,
    replies: Seq<Seq<GeoRecordView>>,
)
    requires
        start.lookups == 0,
        start.batch_size > 0,
    ensures
        refreshed(start, replies).is_done() <==> replies.len() * start.batch_size
            >= start.ips.len(),
        refreshed(start, replies).is_done() ==> refreshed(start, replies).lookups
            == start.ips.len(),
        !refreshed(start, replies).is_done() ==> refreshed(start, replies).batch()
            == start.ips.subrange(
            (replies.len() * start.batch_size) as int,
            if (replies.len() + 1) * start.batch_size <= start.ips.len() {
                ((replies.len() + 1) * start.batch_size) as int
            } else {
                start.ips.len() as int
            },
        ),
    decreases replies.len(),
{
    let now = refreshed(start, replies);
    let n = replies.len();
    let size = start.batch_size;
    law_each_ip_is_asked_once(start, replies);
    assert((n + 1) * size == n * size + size) by (nonlinear_arith);
    if n == 0 {
        assert(0 * size == 0);
    } else {
        let shorter = replies.drop_last();
        law_refresh_ends_with_the_last_ip(start, shorter);
        law_each_ip_is_asked_once(start, shorter);
        assert(n * size == shorter.len() * size + size) by (nonlinear_arith)
            requires
                n == shorter.len() + 1,
        ;
    }
}

/// A reply is seen with every record, and a record with all that it holds.
pub proof fn law_reply_is_seen_whole(reply: Seq<GeoRecord>, i: int)
    requires
        0 <= i < reply.len(),
    ensures
        records(reply).len() == reply.len(),
        records(reply)[i] == reply[i]@,
        ({
            let record = reply[i];
            &&& record@.status == record.status@
            &&& record@.query == record.query@
            &&& record@.lat == record.lat
            &&& record@.lon == record.lon
            &&& record.message matches Some(s) ==> record@.message == Some(s@)
            &&& record.country matches Some(s) ==> record@.country == Some(s@)
            &&& record.country_code matches Some(s) ==> record@.country_code == Some(s@)
            &&& record.region_name matches Some(s) ==> record@.region_name == Some(s@)
            &&& record.city matches Some(s) ==> record@.city == Some(s@)
            &&& record.isp matches Some(s) ==> record@.isp == Some(s@)
            &&& record.org matches Some(s) ==> record@.org == Some(s@)
            &&& record.as_name matches Some(s) ==> record@.as_name == Some(s@)
        }),
{
}

} // verus!
