//! The search for one validator's address: a first search, then one search after
//! each bootstrap peer was asked for its neighbours, then one after each known
//! node was asked. The caller performs the network requests; this module decides
//! which request comes next and how the sweep ends.

use vstd::prelude::*;
use vstd::string::*;

use crate::keys;
use crate::keys::{adnl_key, AdnlKeyError};
use crate::resolution;
use crate::resolution::{endpoint_from_display, AddressView, ResolvedAddress, Resolution, ResolutionView};
use crate::text;
use crate::text::{decimal_text, same_text};

verus! {

/// The tag of the DHT key among the keys of the local ADNL node.
pub const DHT_KEY_TAG: usize = 1;

/// How many known DHT nodes are read at most.
pub const KNOWN_NODES_LIMIT: usize = 10000;

/// The breadth of the full search for an address.
pub const FULL_SEARCH_BREADTH: u8 = 5;

/// What a search for the address yielded.
pub enum Search {
    Found(ResolvedAddress),
    Missing,
    Failed(String),
}

pub enum SearchView {
    Found(AddressView),
    Missing,
    Failed(Seq<char>),
}

impl View for Search {
    type V = SearchView;

    open spec fn view(&self) -> SearchView {
        match self {
            Search::Found(address) => SearchView::Found(address@),
            Search::Missing => SearchView::Missing,
            Search::Failed(error) => SearchView::Failed(error@),
        }
    }
}

/// What asking a peer for its neighbours yielded.
pub enum Ping {
    Responded,
    Silent,
    Failed(String),
}

pub enum PingView {
    Responded,
    Silent,
    Failed(Seq<char>),
}

impl View for Ping {
    type V = PingView;

    open spec fn view(&self) -> PingView {
        match self {
            Ping::Responded => PingView::Responded,
            Ping::Silent => PingView::Silent,
            Ping::Failed(error) => PingView::Failed(error@),
        }
    }
}

/// What adding a known node as a peer yielded: the text of its key, nothing, or
/// an error.
pub enum Addition {
    Peer(String),
    Skipped,
    Failed,
}

pub enum AdditionView {
    Peer(Seq<char>),
    Skipped,
    Failed,
}

impl View for Addition {
    type V = AdditionView;

    open spec fn view(&self) -> AdditionView {
        match self {
            Addition::Peer(id) => AdditionView::Peer(id@),
            Addition::Skipped => AdditionView::Skipped,
            Addition::Failed => AdditionView::Failed,
        }
    }
}

/// The answer to a request of the sweep.
pub enum SweepEvent {
    Searched(Search),
    Pinged(Ping),
    /// The number of known nodes, or nothing where they could not be read.
    Listed(Option<usize>),
    Added(Addition),
}

pub enum SweepEventView {
    Searched(SearchView),
    Pinged(PingView),
    Listed(Option<nat>),
    Added(AdditionView),
}

impl View for SweepEvent {
    type V = SweepEventView;

    open spec fn view(&self) -> SweepEventView {
        match self {
            SweepEvent::Searched(search) => SweepEventView::Searched(search@),
            SweepEvent::Pinged(ping) => SweepEventView::Pinged(ping@),
            SweepEvent::Listed(Some(count)) => SweepEventView::Listed(Some(*count as nat)),
            SweepEvent::Listed(None) => SweepEventView::Listed(None),
            SweepEvent::Added(addition) => SweepEventView::Added(addition@),
        }
    }
}

/// The request that the sweep makes next.
#[derive(Clone, Copy, PartialEq, Eq, Structural, Debug)]
pub enum SweepAction {
    /// Search for the address.
    Search,
    /// Ask the bootstrap peer of this index for its neighbours.
    PingBootstrap(usize),
    /// Read the known nodes.
    ListKnown,
    /// Add the known node of this index as a peer.
    AddKnown(usize),
    /// Ask the known node of this index for its neighbours.
    PingKnown(usize),
    /// Nothing: the sweep has ended.
    Finished,
}

pub enum SweepActionView {
    Search,
    PingBootstrap(nat),
    ListKnown,
    AddKnown(nat),
    PingKnown(nat),
    Finished,
}

impl View for SweepAction {
    type V = SweepActionView;

    open spec fn view(&self) -> SweepActionView {
        match self {
            SweepAction::Search => SweepActionView::Search,
            SweepAction::PingBootstrap(i) => SweepActionView::PingBootstrap(*i as nat),
            SweepAction::ListKnown => SweepActionView::ListKnown,
            SweepAction::AddKnown(i) => SweepActionView::AddKnown(*i as nat),
            SweepAction::PingKnown(i) => SweepActionView::PingKnown(*i as nat),
            SweepAction::Finished => SweepActionView::Finished,
        }
    }
}

/// Whether an event is an answer to a request.
pub open spec fn answers(action: SweepActionView, event: SweepEventView) -> bool {
    match action {
        SweepActionView::Search => event is Searched,
        SweepActionView::PingBootstrap(_) => event is Pinged,
        SweepActionView::ListKnown => event is Listed,
        SweepActionView::AddKnown(_) => event is Added,
        SweepActionView::PingKnown(_) => event is Pinged,
        SweepActionView::Finished => false,
    }
}

enum Stage {
    First,
    Bootstrap(usize),
    AfterBootstrap(usize),
    Listing,
    Adding(usize),
    Known(usize),
    AfterKnown(usize),
    Found(ResolvedAddress),
    NotFound,
    Failed(String),
}

/// Where the sweep stands.
pub enum StageView {
    /// Before the first search.
    First,
    /// Before bootstrap peer `i` is asked.
    Bootstrap(nat),
    /// Before the search that follows bootstrap peer `i`.
    AfterBootstrap(nat),
    /// Before the known nodes are read.
    Listing,
    /// Before known node `i` is added.
    Adding(nat),
    /// Before the `j`-th of the kept known nodes is asked.
    Known(nat),
    /// Before the search that follows the `j`-th of the kept known nodes.
    AfterKnown(nat),
    /// Ended with an address.
    Found(AddressView),
    /// Ended after every search came back empty.
    NotFound,
    /// Ended by an error.
    Failed(Seq<char>),
}

/// The sweep for one address.
pub struct Sweep {
    bootstrap: usize,
    responsive: usize,
    errors: Vec<String>,
    listed: usize,
    ids: Vec<String>,
    kept: Vec<usize>,
    stage: Stage,
}

pub struct SweepView {
    /// The number of bootstrap peers.
    pub bootstrap: nat,
    /// How many of the bootstrap peers asked so far responded.
    pub responsive: nat,
    /// One message for each bootstrap peer that did not.
    pub errors: Seq<Seq<char>>,
    /// The number of known nodes that were read.
    pub listed: nat,
    /// The keys of the kept known nodes.
    pub ids: Seq<Seq<char>>,
    /// The indices of the kept known nodes.
    pub kept: Seq<nat>,
    pub stage: StageView,
}

/// The messages, each behind a semicolon.
pub open spec fn details(errors: Seq<Seq<char>>) -> Seq<char>
    decreases errors.len(),
{
    if errors.len() == 0 {
        Seq::empty()
    } else {
        details(errors.drop_last()) + "; "@ + errors.last()
    }
}

/// The message for bootstrap peer `i` that did not respond.
pub open spec fn silent_text(i: nat) -> Seq<char> {
    "bootstrap #"@ + text::decimal(i + 1) + " did not respond"@
}

/// The message for bootstrap peer `i` that gave an error.
pub open spec fn ping_error_text(i: nat, error: Seq<char>) -> Seq<char> {
    "bootstrap #"@ + text::decimal(i + 1) + ": "@ + error
}

impl SweepView {
    /// A sweep over `bootstrap` peers that has not begun.
    pub open spec fn start(bootstrap: nat) -> SweepView {
        SweepView {
            bootstrap,
            responsive: 0,
            errors: Seq::empty(),
            listed: 0,
            ids: Seq::empty(),
            kept: Seq::empty(),
            stage: StageView::First,
        }
    }

    pub open spec fn at(self, stage: StageView) -> SweepView {
        SweepView { stage, ..self }
    }

    /// The request that is due.
    pub open spec fn action(self) -> SweepActionView {
        match self.stage {
            StageView::First => SweepActionView::Search,
            StageView::Bootstrap(i) => SweepActionView::PingBootstrap(i),
            StageView::AfterBootstrap(_) => SweepActionView::Search,
            StageView::Listing => SweepActionView::ListKnown,
            StageView::Adding(i) => SweepActionView::AddKnown(i),
            StageView::Known(j) => SweepActionView::PingKnown(self.kept[j as int]),
            StageView::AfterKnown(_) => SweepActionView::Search,
            StageView::Found(_) => SweepActionView::Finished,
            StageView::NotFound => SweepActionView::Finished,
            StageView::Failed(_) => SweepActionView::Finished,
        }
    }

    /// On to bootstrap peer `i`, or to the known nodes behind the last.
    pub open spec fn to_bootstrap(self, i: nat) -> SweepView {
        if i < self.bootstrap {
            self.at(StageView::Bootstrap(i))
        } else {
            self.at(StageView::Listing)
        }
    }

    /// On to the `j`-th kept node, or to the end behind the last.
    pub open spec fn to_known(self, j: nat) -> SweepView {
        if j < self.kept.len() {
            self.at(StageView::Known(j))
        } else {
            self.at(StageView::NotFound)
        }
    }

    /// On to adding known node `i`, or to asking them behind the last.
    pub open spec fn to_adding(self, i: nat) -> SweepView {
        if i < self.listed {
            self.at(StageView::Adding(i))
        } else {
            self.to_known(0)
        }
    }

    /// The end of a search: `missed` is where the sweep goes on.
    pub open spec fn searched(self, search: SearchView, missed: SweepView) -> SweepView {
        match search {
            SearchView::Found(address) => self.at(StageView::Found(address)),
            SearchView::Missing => missed,
            SearchView::Failed(error) => self.at(StageView::Failed(error)),
        }
    }

    /// The answer of bootstrap peer `i`, counted.
    pub open spec fn pinged(self, i: nat, ping: PingView) -> SweepView {
        match ping {
            PingView::Responded => SweepView { responsive: self.responsive + 1, ..self },
            PingView::Silent => SweepView { errors: self.errors.push(silent_text(i)), ..self },
            PingView::Failed(error) => SweepView {
                errors: self.errors.push(ping_error_text(i, error)),
                ..self
            },
        }
    }

    /// The sweep after an answer to the request that was due.
    pub open spec fn step(self, event: SweepEventView) -> SweepView {
        match (self.stage, event) {
            (StageView::First, SweepEventView::Searched(search)) => self.searched(
                search,
                self.to_bootstrap(0),
            ),
            (StageView::Bootstrap(i), SweepEventView::Pinged(ping)) => self.pinged(i, ping).at(
                StageView::AfterBootstrap(i),
            ),
            (StageView::AfterBootstrap(i), SweepEventView::Searched(search)) => self.searched(
                search,
                self.to_bootstrap(i + 1),
            ),
            (StageView::Listing, SweepEventView::Listed(Some(count))) => SweepView {
                listed: count,
                ..self
            }.to_adding(0),
            (StageView::Listing, SweepEventView::Listed(None)) => self.at(
                StageView::Failed("failed to read known DHT nodes"@),
            ),
            (StageView::Adding(i), SweepEventView::Added(AdditionView::Peer(id))) => if self.ids.contains(
                id,
            ) {
                self.to_adding(i + 1)
            } else {
                SweepView {
                    ids: self.ids.push(id),
                    kept: self.kept.push(i),
                    ..self
                }.to_adding(i + 1)
            },
            (StageView::Adding(i), SweepEventView::Added(AdditionView::Skipped)) => self.to_adding(
                i + 1,
            ),
            (StageView::Adding(_), SweepEventView::Added(AdditionView::Failed)) => self.at(
                StageView::Failed("failed to add known DHT node"@),
            ),
            (StageView::Known(j), SweepEventView::Pinged(_)) => self.at(StageView::AfterKnown(j)),
            (StageView::AfterKnown(j), SweepEventView::Searched(search)) => self.searched(
                search,
                self.to_known(j + 1),
            ),
            _ => self,
        }
    }

    /// The report that no search found the address.
    pub open spec fn not_found_text(self) -> Seq<char> {
        "address not found after checking "@ + text::decimal(self.bootstrap)
            + " bootstrap DHT peers ("@ + text::decimal(self.responsive) + " responsive)"@
            + details(self.errors)
    }

    /// How the sweep ended.
    pub open spec fn outcome(self) -> Result<AddressView, Seq<char>>
        recommends
            self.action() is Finished,
    {
        match self.stage {
            StageView::Found(address) => Ok(address),
            StageView::Failed(error) => Err(error),
            _ => Err(self.not_found_text()),
        }
    }
}

impl Sweep {
    #[verifier::type_invariant]
    spec fn well_formed(self) -> bool {
        &&& self.responsive <= self.bootstrap
        &&& match self.stage {
            Stage::First => self.responsive == 0,
            Stage::Bootstrap(i) => i < self.bootstrap && self.responsive <= i,
            Stage::AfterBootstrap(i) => i < self.bootstrap && self.responsive <= i + 1,
            Stage::Adding(i) => i < self.listed,
            Stage::Known(j) => j < self.kept@.len(),
            Stage::AfterKnown(j) => j < self.kept@.len(),
            _ => true,
        }
    }
}

impl View for Sweep {
    type V = SweepView;

    closed spec fn view(&self) -> SweepView {
        SweepView {
            bootstrap: self.bootstrap as nat,
            responsive: self.responsive as nat,
            errors: text::texts(self.errors@),
            listed: self.listed as nat,
            ids: text::texts(self.ids@),
            kept: self.kept@.map_values(|i: usize| i as nat),
            stage: match self.stage {
                Stage::First => StageView::First,
                Stage::Bootstrap(i) => StageView::Bootstrap(i as nat),
                Stage::AfterBootstrap(i) => StageView::AfterBootstrap(i as nat),
                Stage::Listing => StageView::Listing,
                Stage::Adding(i) => StageView::Adding(i as nat),
                Stage::Known(j) => StageView::Known(j as nat),
                Stage::AfterKnown(j) => StageView::AfterKnown(j as nat),
                Stage::Found(address) => StageView::Found(address@),
                Stage::NotFound => StageView::NotFound,
                Stage::Failed(error) => StageView::Failed(error@),
            },
        }
    }
}

/// Writes the message for bootstrap peer `i` that did not respond.
fn silent_message(i: usize) -> (r: String)
    requires
        i < usize::MAX,
    ensures
        r@ == silent_text(i as nat),
{
    let mut r: String = "bootstrap #".to_owned();
    r.append(decimal_text(i as u64 + 1).as_str());
    r.append(" did not respond");
    r
}

/// Writes the message for bootstrap peer `i` that gave an error.
fn ping_error_message(i: usize, error: &str) -> (r: String)
    requires
        i < usize::MAX,
    ensures
        r@ == ping_error_text(i as nat, error@),
{
    let mut r: String = "bootstrap #".to_owned();
    r.append(decimal_text(i as u64 + 1).as_str());
    r.append(": ");
    r.append(error);
    r
}

/// Whether a text is in a list.
fn holds_text(list: &Vec<String>, wanted: &str) -> (r: bool)
    ensures
        r == text::texts(list@).contains(wanted@),
{
    let mut i: usize = 0;
    while i < list.len()
        invariant
            i <= list@.len(),
            forall|j: int| 0 <= j < i ==> (#[trigger] text::texts(list@)[j]) != wanted@,
        decreases list@.len() - i,
    {
        if same_text(list[i].as_str(), wanted) {
            assert(text::texts(list@)[i as int] == wanted@);
            return true;
        }
        i = i + 1;
    }
    false
}

impl Sweep {
    /// A sweep over `bootstrap` peers.
    pub fn start(bootstrap: usize) -> (r: Sweep)
        ensures
            r@ == SweepView::start(bootstrap as nat),
    {
        let r = Sweep {
            bootstrap,
            responsive: 0,
            errors: Vec::new(),
            listed: 0,
            ids: Vec::new(),
            kept: Vec::new(),
            stage: Stage::First,
        };
        assert(r@.errors =~= Seq::<Seq<char>>::empty());
        assert(r@.ids =~= Seq::<Seq<char>>::empty());
        assert(r@.kept =~= Seq::<nat>::empty());
        r
    }

    /// The sweep for an ADNL address, with the key to search for; an address that
    /// cannot be read is an error.
    pub fn for_address(adnl_addr: &str, bootstrap: usize) -> (r: Result<(Vec<u8>, Sweep), String>)
        ensures
            match r {
                Ok((key, sweep)) => {
                    &&& keys::adnl_key_of(adnl_addr@) == Ok::<Seq<u8>, AdnlKeyError>(key@)
                    &&& sweep@ == SweepView::start(bootstrap as nat)
                },
                Err(message) => keys::adnl_key_of(adnl_addr@) matches Err(error) && message@
                    == error.text(),
            },
    {
        match adnl_key(adnl_addr) {
            Ok(key) => Ok((key, Sweep::start(bootstrap))),
            Err(error) => Err(error.message()),
        }
    }

    /// The request that is due.
    pub fn action(&self) -> (r: SweepAction)
        ensures
            r@ == self@.action(),
    {
        proof {
            use_type_invariant(self);
        }
        match &self.stage {
            Stage::First => SweepAction::Search,
            Stage::Bootstrap(i) => SweepAction::PingBootstrap(*i),
            Stage::AfterBootstrap(_) => SweepAction::Search,
            Stage::Listing => SweepAction::ListKnown,
            Stage::Adding(i) => SweepAction::AddKnown(*i),
            Stage::Known(j) => SweepAction::PingKnown(self.kept[*j]),
            Stage::AfterKnown(_) => SweepAction::Search,
            Stage::Found(_) => SweepAction::Finished,
            Stage::NotFound => SweepAction::Finished,
            Stage::Failed(_) => SweepAction::Finished,
        }
    }

    fn at(self, stage: Stage) -> (r: Sweep)
        requires
            (Sweep { stage, ..self }).well_formed(),
        ensures
            r == (Sweep { stage, ..self }),
    {
        Sweep {
            bootstrap: self.bootstrap,
            responsive: self.responsive,
            errors: self.errors,
            listed: self.listed,
            ids: self.ids,
            kept: self.kept,
            stage,
        }
    }

    fn to_bootstrap(self, i: usize) -> (r: Sweep)
        requires
            self.responsive <= i,
            self.responsive <= self.bootstrap,
        ensures
            r@ == self@.to_bootstrap(i as nat),
    {
        if i < self.bootstrap {
            self.at(Stage::Bootstrap(i))
        } else {
            self.at(Stage::Listing)
        }
    }

    fn to_known(self, j: usize) -> (r: Sweep)
        requires
            self.responsive <= self.bootstrap,
        ensures
            r@ == self@.to_known(j as nat),
    {
        if j < self.kept.len() {
            self.at(Stage::Known(j))
        } else {
            self.at(Stage::NotFound)
        }
    }

    fn to_adding(self, i: usize) -> (r: Sweep)
        requires
            self.responsive <= self.bootstrap,
        ensures
            r@ == self@.to_adding(i as nat),
    {
        if i < self.listed {
            self.at(Stage::Adding(i))
        } else {
            self.to_known(0)
        }
    }

    /// Takes the answer to the request that was due.
    pub fn step(self, event: SweepEvent) -> (r: Sweep)
        requires
            answers(self@.action(), event@),
        ensures
            r@ == self@.step(event@),
    {
        proof {
            use_type_invariant(&self);
        }
        let ghost before = self@;
        match event {
            SweepEvent::Searched(Search::Found(address)) => self.at(Stage::Found(address)),
            SweepEvent::Searched(Search::Failed(error)) => self.at(Stage::Failed(error)),
            SweepEvent::Searched(Search::Missing) => match &self.stage {
                Stage::AfterBootstrap(i) => {
                    let next: usize = *i + 1;
                    self.to_bootstrap(next)
                },
                Stage::AfterKnown(j) => {
                    let kept: usize = self.kept.len();
                    assert(*j < kept);
                    let next: usize = *j + 1;
                    self.to_known(next)
                },
                _ => self.to_bootstrap(0),
            },
            SweepEvent::Pinged(ping) => match &self.stage {
                Stage::Bootstrap(i) => {
                    let i: usize = *i;
                    let mut responsive: usize = self.responsive;
                    let mut errors: Vec<String> = self.errors;
                    match ping {
                        Ping::Responded => {
                            responsive = responsive + 1;
                        },
                        Ping::Silent => {
                            errors.push(silent_message(i));
                            assert(text::texts(errors@) =~= before.errors.push(
                                silent_text(i as nat),
                            ));
                        },
                        Ping::Failed(error) => {
                            errors.push(ping_error_message(i, error.as_str()));
                            assert(text::texts(errors@) =~= before.errors.push(
                                ping_error_text(i as nat, error@),
                            ));
                        },
                    }
                    Sweep {
                        bootstrap: self.bootstrap,
                        responsive,
                        errors,
                        listed: self.listed,
                        ids: self.ids,
                        kept: self.kept,
                        stage: Stage::AfterBootstrap(i),
                    }
                },
                Stage::Known(j) => {
                    let j: usize = *j;
                    self.at(Stage::AfterKnown(j))
                },
                _ => self,
            },
            SweepEvent::Listed(Some(count)) => Sweep {
                bootstrap: self.bootstrap,
                responsive: self.responsive,
                errors: self.errors,
                listed: count,
                ids: self.ids,
                kept: self.kept,
                stage: Stage::Listing,
            }.to_adding(0),
            SweepEvent::Listed(None) => self.at(
                Stage::Failed("failed to read known DHT nodes".to_owned()),
            ),
            SweepEvent::Added(addition) => match &self.stage {
                Stage::Adding(i) => {
                    let i: usize = *i;
                    match addition {
                        Addition::Peer(id) => if holds_text(&self.ids, id.as_str()) {
                            self.to_adding(i + 1)
                        } else {
                            let mut ids: Vec<String> = self.ids;
                            let mut kept: Vec<usize> = self.kept;
                            ids.push(id);
                            kept.push(i);
                            let next = Sweep {
                                bootstrap: self.bootstrap,
                                responsive: self.responsive,
                                errors: self.errors,
                                listed: self.listed,
                                ids,
                                kept,
                                stage: Stage::Listing,
                            };
                            assert(next@.ids =~= before.ids.push(id@));
                            assert(next@.kept =~= before.kept.push(i as nat));
                            next.to_adding(i + 1)
                        },
                        Addition::Skipped => self.to_adding(i + 1),
                        Addition::Failed => self.at(
                            Stage::Failed("failed to add known DHT node".to_owned()),
                        ),
                    }
                },
                _ => self,
            },
        }
    }

    fn not_found_message(&self) -> (r: String)
        ensures
            r@ == self@.not_found_text(),
    {
        let mut r: String = "address not found after checking ".to_owned();
        r.append(decimal_text(self.bootstrap as u64).as_str());
        r.append(" bootstrap DHT peers (");
        r.append(decimal_text(self.responsive as u64).as_str());
        r.append(" responsive)");
        let ghost head = r@;
        let ghost errors = text::texts(self.errors@);
        let mut i: usize = 0;
        while i < self.errors.len()
            invariant
                i <= self.errors@.len(),
                errors == text::texts(self.errors@),
                r@ == head + details(errors.take(i as int)),
            decreases self.errors@.len() - i,
        {
            r.append("; ");
            r.append(self.errors[i].as_str());
            proof {
                let longer = errors.take(i + 1);
                assert(longer.drop_last() =~= errors.take(i as int));
                assert(longer.last() == self.errors@[i as int]@);
                assert(r@ =~= head + details(longer));
            }
            i = i + 1;
        }
        assert(errors.take(i as int) =~= errors);
        r
    }

    /// How the sweep ended: with an address, or with the reason why there is none.
    pub fn finish(self) -> (r: Result<ResolvedAddress, String>)
        requires
            self@.action() is Finished,
        ensures
            self@.outcome() == (match r {
                Ok(address) => Ok(address@),
                Err(error) => Err(error@),
            }),
    {
        let report: String = self.not_found_message();
        match self.stage {
            Stage::Found(address) => Ok(address),
            Stage::Failed(error) => Err(error),
            _ => Err(report),
        }
    }
}

/// What the reply of an address search amounts to: an error ends the sweep, no
/// address lets it go on, and the text of an address is read as an endpoint.
pub open spec fn search_of_reply(reply: Result<Option<Seq<char>>, Seq<char>>) -> SearchView {
    match reply {
        Err(error) => SearchView::Failed(error),
        Ok(None) => SearchView::Missing,
        Ok(Some(display)) => match resolution::endpoint(display) {
            Ok(address) => SearchView::Found(address),
            Err(error) => SearchView::Failed(error.text(display)),
        },
    }
}

/// Reads the reply of an address search.
pub fn search_result(reply: Result<Option<String>, String>) -> (r: Search)
    ensures
        r@ == search_of_reply(
            match reply {
                Ok(Some(display)) => Ok(Some(display@)),
                Ok(None) => Ok(None),
                Err(error) => Err(error@),
            },
        ),
{
    match reply {
        Err(error) => Search::Failed(error),
        Ok(None) => Search::Missing,
        Ok(Some(display)) => match endpoint_from_display(display.as_str()) {
            Ok(address) => Search::Found(address),
            Err(error) => Search::Failed(error.message(display.as_str())),
        },
    }
}

/// How a lookup under a time limit ended.
pub enum Lookup {
    Found(ResolvedAddress),
    Failed(String),
    TimedOut,
}

/// The message for a lookup that took longer than `secs` seconds.
pub open spec fn timeout_text(secs: nat) -> Seq<char> {
    "lookup timed out after "@ + text::decimal(secs) + "s"@
}

/// The resolution that a lookup amounts to.
pub fn resolution_of(lookup: Lookup, timeout_secs: u64) -> (r: Resolution)
    ensures
        r@ == (match lookup {
            Lookup::Found(address) => ResolutionView::resolved(address@),
            Lookup::Failed(error) => ResolutionView::failed(error@),
            Lookup::TimedOut => ResolutionView::failed(timeout_text(timeout_secs as nat)),
        }),
        lookup matches Lookup::Found(address) ==> r.status@ == "resolved"@ && r.addresses@
            == seq![address] && r.error is None,
        !(lookup is Found) ==> r.status@ == "failed"@ && r.addresses@.len() == 0,
        lookup matches Lookup::Failed(error) ==> r.error == Some(error),
        lookup is TimedOut ==> (r.error matches Some(error) && error@ == "lookup timed out after "@
            + text::decimal(timeout_secs as nat) + "s"@),
{
    match lookup {
        Lookup::Found(address) => Resolution::resolved(address),
        Lookup::Failed(error) => Resolution::failed(error),
        Lookup::TimedOut => {
            let mut error: String = "lookup timed out after ".to_owned();
            error.append(decimal_text(timeout_secs).as_str());
            error.append("s");
            Resolution::failed(error)
        },
    }
}

/// The sweep over `bootstrap` peers after the answers `events`.
pub open spec fn run(bootstrap: nat, events: Seq<SweepEventView>) -> SweepView
    decreases events.len(),
{
    if events.len() == 0 {
        SweepView::start(bootstrap)
    } else {
        run(bootstrap, events.drop_last()).step(events.last())
    }
}

/// The request that answer `k` was given to.
pub open spec fn asked(bootstrap: nat, events: Seq<SweepEventView>, k: int) -> SweepActionView {
    run(bootstrap, events.take(k)).action()
}

/// Whether each answer was given to the request that was due.
pub open spec fn is_history(bootstrap: nat, events: Seq<SweepEventView>) -> bool {
    forall|k: int|
        0 <= k < events.len() ==> answers(#[trigger] asked(bootstrap, events, k), events[k])
}

/// Whether answer `k` is that of bootstrap peer `i`, and the search right after
/// it came back empty.
pub open spec fn swept_at(bootstrap: nat, events: Seq<SweepEventView>, i: nat, k: int) -> bool {
    &&& 0 <= k
    &&& k + 1 < events.len()
    &&& asked(bootstrap, events, k) == SweepActionView::PingBootstrap(i)
    &&& asked(bootstrap, events, k + 1) is Search
    &&& events[k + 1] == SweepEventView::Searched(SearchView::Missing)
}

/// Whether bootstrap peer `i` was asked and searched behind, in vain.
pub open spec fn swept(bootstrap: nat, events: Seq<SweepEventView>, i: nat) -> bool {
    exists|k: int| swept_at(bootstrap, events, i, k)
}

/// Whether answer `k` is that of the known node `i`, and the search right after
/// it came back empty.
pub open spec fn known_swept_at(
    bootstrap: nat,
    events: Seq<SweepEventView>,
    i: nat,
    k: int,
) -> bool {
    &&& 0 <= k
    &&& k + 1 < events.len()
    &&& asked(bootstrap, events, k) == SweepActionView::PingKnown(i)
    &&& asked(bootstrap, events, k + 1) is Search
    &&& events[k + 1] == SweepEventView::Searched(SearchView::Missing)
}

/// Whether known node `i` was asked and searched behind, in vain.
pub open spec fn known_swept(bootstrap: nat, events: Seq<SweepEventView>, i: nat) -> bool {
    exists|k: int| known_swept_at(bootstrap, events, i, k)
}

/// How many bootstrap peers are behind a sweep that has not ended.
spec fn peers_behind(s: SweepView) -> nat {
    match s.stage {
        StageView::First => 0,
        StageView::Bootstrap(i) => i,
        StageView::AfterBootstrap(i) => i,
        _ => s.bootstrap,
    }
}

/// How many kept known nodes are behind a sweep that has not ended.
spec fn known_behind(s: SweepView) -> nat {
    match s.stage {
        StageView::Known(j) => j,
        StageView::AfterKnown(j) => j,
        StageView::NotFound => s.kept.len(),
        _ => 0,
    }
}

/// How many answers a sweep that has not ended by a find or an error has taken.
spec fn answers_taken(s: SweepView) -> nat {
    match s.stage {
        StageView::First => 0,
        StageView::Bootstrap(i) => 1 + 2 * i,
        StageView::AfterBootstrap(i) => 2 + 2 * i,
        StageView::Listing => 1 + 2 * s.bootstrap,
        StageView::Adding(i) => 2 + 2 * s.bootstrap + i,
        StageView::Known(j) => 2 + 2 * s.bootstrap + s.listed + 2 * j,
        StageView::AfterKnown(j) => 3 + 2 * s.bootstrap + s.listed + 2 * j,
        _ => 2 + 2 * s.bootstrap + s.listed + 2 * s.kept.len(),
    }
}

/// What holds of the counts of a sweep after `taken` answers, wherever it stands.
spec fn counts_agree(s: SweepView, taken: nat) -> bool {
    let ended = s.stage is Found || s.stage is Failed;
    &&& s.ids.len() == s.kept.len()
    &&& s.ids.no_duplicates()
    &&& s.kept.len() <= s.listed
    &&& match s.stage {
        StageView::First => s.responsive == 0 && s.errors.len() == 0 && s.listed == 0,
        StageView::Bootstrap(i) => i < s.bootstrap && s.responsive + s.errors.len() == i && s.listed
            == 0,
        StageView::AfterBootstrap(i) => i < s.bootstrap && s.responsive + s.errors.len() == i + 1
            && s.listed == 0,
        StageView::Listing => s.responsive + s.errors.len() == s.bootstrap && s.listed == 0,
        StageView::Adding(i) => i < s.listed && s.kept.len() <= i && s.responsive + s.errors.len()
            == s.bootstrap,
        StageView::Known(j) => j < s.kept.len() && s.responsive + s.errors.len() == s.bootstrap,
        StageView::AfterKnown(j) => j < s.kept.len() && s.responsive + s.errors.len()
            == s.bootstrap,
        StageView::NotFound => s.responsive + s.errors.len() == s.bootstrap,
        _ => true,
    }
    &&& if ended {
        taken <= 2 + 2 * s.bootstrap + s.listed + 2 * s.kept.len()
    } else {
        taken == answers_taken(s)
    }
}

proof fn lemma_counts_step(s: SweepView, event: SweepEventView, taken: nat)
    requires
        counts_agree(s, taken),
        answers(s.action(), event),
    ensures
        counts_agree(s.step(event), taken + 1),
        s.step(event).bootstrap == s.bootstrap,
{
}

/// What holds of the requests behind a sweep that goes on or found nothing.
spec fn behind_swept(bootstrap: nat, events: Seq<SweepEventView>) -> bool {
    let s = run(bootstrap, events);
    &&& forall|i: nat| i < peers_behind(s) ==> #[trigger] swept(bootstrap, events, i)
    &&& forall|j: int|
        0 <= j < known_behind(s) ==> known_swept(bootstrap, events, #[trigger] s.kept[j])
    &&& s.stage matches StageView::AfterBootstrap(i) ==> events.len() > 0 && asked(
        bootstrap,
        events,
        events.len() - 1,
    ) == SweepActionView::PingBootstrap(i)
    &&& s.stage matches StageView::AfterKnown(j) ==> events.len() > 0 && asked(
        bootstrap,
        events,
        events.len() - 1,
    ) == SweepActionView::PingKnown(s.kept[j as int])
}

proof fn lemma_asked_earlier(bootstrap: nat, events: Seq<SweepEventView>, k: int)
    requires
        events.len() > 0,
        0 <= k < events.len(),
    ensures
        asked(bootstrap, events, k) == asked(bootstrap, events.drop_last(), k),
{
    assert(events.take(k) =~= events.drop_last().take(k));
}

proof fn lemma_swept_earlier(bootstrap: nat, events: Seq<SweepEventView>, i: nat)
    requires
        events.len() > 0,
    ensures
        swept(bootstrap, events.drop_last(), i) ==> swept(bootstrap, events, i),
        known_swept(bootstrap, events.drop_last(), i) ==> known_swept(bootstrap, events, i),
{
    let shorter = events.drop_last();
    if swept(bootstrap, shorter, i) {
        let k = choose|k: int| swept_at(bootstrap, shorter, i, k);
        lemma_asked_earlier(bootstrap, events, k);
        lemma_asked_earlier(bootstrap, events, k + 1);
        assert(swept_at(bootstrap, events, i, k));
    }
    if known_swept(bootstrap, shorter, i) {
        let k = choose|k: int| known_swept_at(bootstrap, shorter, i, k);
        lemma_asked_earlier(bootstrap, events, k);
        lemma_asked_earlier(bootstrap, events, k + 1);
        assert(known_swept_at(bootstrap, events, i, k));
    }
}

proof fn lemma_history_prefix(bootstrap: nat, events: Seq<SweepEventView>)
    requires
        is_history(bootstrap, events),
        events.len() > 0,
    ensures
        is_history(bootstrap, events.drop_last()),
        answers(run(bootstrap, events.drop_last()).action(), events.last()),
{
    let shorter = events.drop_last();
    assert forall|k: int| 0 <= k < shorter.len() implies answers(
        #[trigger] asked(bootstrap, shorter, k),
        shorter[k],
    ) by {
        lemma_asked_earlier(bootstrap, events, k);
        assert(answers(asked(bootstrap, events, k), events[k]));
    }
    assert(events.take(events.len() - 1) =~= shorter);
    assert(answers(asked(bootstrap, events, events.len() - 1), events[events.len() - 1]));
}

proof fn lemma_counts(bootstrap: nat, events: Seq<SweepEventView>)
    requires
        is_history(bootstrap, events),
    ensures
        counts_agree(run(bootstrap, events), events.len()),
        run(bootstrap, events).bootstrap == bootstrap,
    decreases events.len(),
{
    if events.len() > 0 {
        lemma_history_prefix(bootstrap, events);
        lemma_counts(bootstrap, events.drop_last());
        lemma_counts_step(
            run(bootstrap, events.drop_last()),
            events.last(),
            events.drop_last().len(),
        );
    }
}

proof fn lemma_behind_swept(bootstrap: nat, events: Seq<SweepEventView>)
    requires
        is_history(bootstrap, events),
        !(run(bootstrap, events).stage is Found),
        !(run(bootstrap, events).stage is Failed),
    ensures
        behind_swept(bootstrap, events),
    decreases events.len(),
{
    if events.len() > 0 {
        let shorter = events.drop_last();
        let last = events.len() - 1;
        let s = run(bootstrap, shorter);
        let t = run(bootstrap, events);
        let event = events.last();
        lemma_history_prefix(bootstrap, events);
        lemma_counts(bootstrap, shorter);
        lemma_behind_swept(bootstrap, shorter);
        assert(events.take(last) =~= shorter);
        assert(asked(bootstrap, events, last) == s.action());
        assert(s.kept.len() <= t.kept.len());
        if last > 0 {
            lemma_asked_earlier(bootstrap, events, last - 1);
        }
        assert forall|i: nat| i < peers_behind(t) implies #[trigger] swept(
            bootstrap,
            events,
            i,
        ) by {
            lemma_swept_earlier(bootstrap, events, i);
            if i < peers_behind(s) {
                assert(swept(bootstrap, shorter, i));
            } else {
                assert(s.stage == StageView::AfterBootstrap(i));
                assert(swept_at(bootstrap, events, i, last - 1));
            }
        }
        assert forall|j: int| 0 <= j < known_behind(t) implies known_swept(
            bootstrap,
            events,
            #[trigger] t.kept[j],
        ) by {
            lemma_swept_earlier(bootstrap, events, t.kept[j]);
            assert(t.kept == s.kept);
            if j < known_behind(s) {
                assert(known_swept(bootstrap, shorter, s.kept[j]));
            } else {
                assert(s.stage == StageView::AfterKnown(j as nat));
                assert(known_swept_at(bootstrap, events, t.kept[j], last - 1));
            }
        }
    }
}

/// An address is reported missing only after every bootstrap peer was asked and
/// the search behind each came back empty, as it did behind each known node that
/// was kept; and the report counts each bootstrap peer once, as responsive or with
/// a message.
pub proof fn law_missing_only_after_full_sweep(bootstrap: nat, events: Seq<SweepEventView>)
    requires
        is_history(bootstrap, events),
        run(bootstrap, events).stage is NotFound,
    ensures
        forall|i: nat| i < bootstrap ==> #[trigger] swept(bootstrap, events, i),
        forall|j: int|
            0 <= j < run(bootstrap, events).kept.len() ==> known_swept(
                bootstrap,
                events,
                #[trigger] run(bootstrap, events).kept[j],
            ),
        run(bootstrap, events).responsive + run(bootstrap, events).errors.len() == bootstrap,
{
    lemma_counts(bootstrap, events);
    lemma_behind_swept(bootstrap, events);
}

/// A sweep that ends without an address, though none of its searches failed, has asked
/// every bootstrap peer and searched behind each in vain; also where it ends because the
/// known nodes cannot be read or added.
pub proof fn law_failure_only_after_full_sweep(bootstrap: nat, events: Seq<SweepEventView>)
    requires
        is_history(bootstrap, events),
        run(bootstrap, events).action() is Finished,
        run(bootstrap, events).outcome() is Err,
        forall|k: int|
            0 <= k < events.len() ==> !(#[trigger] events[k] matches SweepEventView::Searched(
                SearchView::Failed(_),
            )),
    ensures
        forall|i: nat| i < bootstrap ==> #[trigger] swept(bootstrap, events, i),
{
    if run(bootstrap, events).stage is NotFound {
        law_missing_only_after_full_sweep(bootstrap, events);
    } else {
        let shorter = events.drop_last();
        let s = run(bootstrap, shorter);
        assert(!(events[events.len() - 1] matches SweepEventView::Searched(SearchView::Failed(_))));
        lemma_history_prefix(bootstrap, events);
        lemma_counts(bootstrap, shorter);
        assert(s.stage is Listing || s.stage is Adding);
        lemma_behind_swept(bootstrap, shorter);
        assert forall|i: nat| i < bootstrap implies #[trigger] swept(bootstrap, events, i) by {
            assert(swept(bootstrap, shorter, i));
            lemma_swept_earlier(bootstrap, events, i);
        }
    }
}

/// The first search that finds an address ends the sweep with that address, and
/// the first that fails ends it with its error.
pub proof fn law_search_result_ends_sweep(bootstrap: nat, events: Seq<SweepEventView>, k: int)
    requires
        is_history(bootstrap, events),
        0 <= k < events.len(),
    ensures
        events[k] matches SweepEventView::Searched(SearchView::Found(address)) ==> {
            &&& k == events.len() - 1
            &&& run(bootstrap, events).action() is Finished
            &&& run(bootstrap, events).outcome() == Ok::<AddressView, Seq<char>>(address)
        },
        events[k] matches SweepEventView::Searched(SearchView::Failed(error)) ==> {
            &&& k == events.len() - 1
            &&& run(bootstrap, events).action() is Finished
            &&& run(bootstrap, events).outcome() == Err::<AddressView, Seq<char>>(error)
        },
    decreases events.len(),
{
    lemma_history_prefix(bootstrap, events);
    if k < events.len() - 1 {
        law_search_result_ends_sweep(bootstrap, events.drop_last(), k);
        assert(events.drop_last()[k] == events[k]);
    }
}

/// A sweep that ends with an address ends with what its last search found.
pub proof fn law_address_comes_from_search(bootstrap: nat, events: Seq<SweepEventView>)
    requires
        is_history(bootstrap, events),
        run(bootstrap, events).stage is Found,
    ensures
        events.len() > 0,
        events.last() == SweepEventView::Searched(
            SearchView::Found(run(bootstrap, events).stage->Found_0),
        ),
{
    lemma_history_prefix(bootstrap, events);
}

/// Every sweep ends: it takes at most two answers, two for each bootstrap peer and
/// three for each known node.
pub proof fn law_sweep_is_bounded(bootstrap: nat, events: Seq<SweepEventView>)
    requires
        is_history(bootstrap, events),
    ensures
        events.len() <= 2 + 2 * bootstrap + 3 * run(bootstrap, events).listed,
{
    lemma_counts(bootstrap, events);
}

/// Whether answer `k` added known node `i` under the key `id`.
pub open spec fn added_at(
    bootstrap: nat,
    events: Seq<SweepEventView>,
    i: nat,
    id: Seq<char>,
    k: int,
) -> bool {
    &&& 0 <= k < events.len()
    &&& asked(bootstrap, events, k) == SweepActionView::AddKnown(i)
    &&& events[k] == SweepEventView::Added(AdditionView::Peer(id))
}

/// Whether known node `i` was added under the key `id`.
pub open spec fn added(bootstrap: nat, events: Seq<SweepEventView>, i: nat, id: Seq<char>) -> bool {
    exists|k: int| added_at(bootstrap, events, i, id, k)
}

/// Of the known nodes added under one key one is kept to be asked: the keys of the
/// kept nodes are pairwise different, each is the key that the node was added
/// under, and no key that a node was added under is left out.
pub proof fn law_one_known_node_kept_per_key(bootstrap: nat, events: Seq<SweepEventView>)
    requires
        is_history(bootstrap, events),
    ensures
        run(bootstrap, events).ids.no_duplicates(),
        run(bootstrap, events).ids.len() == run(bootstrap, events).kept.len(),
        forall|j: int|
            0 <= j < run(bootstrap, events).ids.len() ==> added(
                bootstrap,
                events,
                run(bootstrap, events).kept[j],
                #[trigger] run(bootstrap, events).ids[j],
            ),
        forall|i: nat, id: Seq<char>|
            #[trigger] added(bootstrap, events, i, id) ==> run(bootstrap, events).ids.contains(id),
    decreases events.len(),
{
    lemma_counts(bootstrap, events);
    if events.len() > 0 {
        let shorter = events.drop_last();
        let last = events.len() - 1;
        let s = run(bootstrap, shorter);
        let t = run(bootstrap, events);
        lemma_history_prefix(bootstrap, events);
        lemma_counts(bootstrap, shorter);
        law_one_known_node_kept_per_key(bootstrap, shorter);
        assert(events.take(last) =~= shorter);
        assert forall|j: int| 0 <= j < t.ids.len() implies added(
            bootstrap,
            events,
            t.kept[j],
            #[trigger] t.ids[j],
        ) by {
            if j < s.ids.len() {
                assert(t.ids[j] == s.ids[j] && t.kept[j] == s.kept[j]);
                let k = choose|k: int| added_at(bootstrap, shorter, s.kept[j], s.ids[j], k);
                lemma_asked_earlier(bootstrap, events, k);
                assert(added_at(bootstrap, events, t.kept[j], t.ids[j], k));
            } else {
                assert(added_at(bootstrap, events, t.kept[j], t.ids[j], last));
            }
        }
        assert forall|i: nat, id: Seq<char>| #[trigger] added(bootstrap, events, i, id) implies t.ids.contains(
            id,
        ) by {
            let k = choose|k: int| added_at(bootstrap, events, i, id, k);
            if k < last {
                lemma_asked_earlier(bootstrap, events, k);
                assert(added_at(bootstrap, shorter, i, id, k));
                assert(added(bootstrap, shorter, i, id));
                let j = choose|j: int| 0 <= j < s.ids.len() && s.ids[j] == id;
                assert(t.ids[j] == id);
            } else if !s.ids.contains(id) {
                assert(t.ids[s.ids.len() as int] == id);
            } else {
                assert(t.ids == s.ids);
            }
        }
    }
}

/// Whether an answer ends the sweep: a search that finds or fails, known nodes that cannot
/// be read, or one that cannot be added.
pub open spec fn is_final(event: SweepEventView) -> bool {
    match event {
        SweepEventView::Searched(search) => !(search is Missing),
        SweepEventView::Listed(count) => count is None,
        SweepEventView::Added(addition) => addition is Failed,
        SweepEventView::Pinged(_) => false,
    }
}

/// The key that an answer adds a known node under.
pub open spec fn key_in(event: SweepEventView) -> Option<Seq<char>> {
    match event {
        SweepEventView::Added(AdditionView::Peer(id)) => Some(id),
        _ => None,
    }
}

/// The keys that the first `n` known nodes were added under.
pub open spec fn keys_given(
    bootstrap: nat,
    events: Seq<SweepEventView>,
    n: nat,
) -> Seq<Option<Seq<char>>> {
    Seq::new(n, |i: int| key_in(events[2 * bootstrap + 2 + i]))
}

/// The indices at which a list holds a key for the first time.
pub open spec fn first_of_each(keys: Seq<Option<Seq<char>>>) -> Seq<nat> {
    Seq::new(keys.len(), |i: int| i as nat).filter(
        |i: nat| keys[i as int] is Some && !keys.take(i as int).contains(keys[i as int]),
    )
}

proof fn lemma_filter_agrees<A>(s: Seq<A>, p: spec_fn(A) -> bool, q: spec_fn(A) -> bool)
    requires
        forall|i: int| 0 <= i < s.len() ==> p(#[trigger] s[i]) == q(s[i]),
    ensures
        s.filter(p) == s.filter(q),
    decreases s.len(),
{
    reveal(Seq::filter);
    if s.len() > 0 {
        assert(p(s[s.len() - 1]) == q(s[s.len() - 1]));
        assert forall|i: int| 0 <= i < s.drop_last().len() implies p(#[trigger] s.drop_last()[i])
            == q(s.drop_last()[i]) by {
            assert(s.drop_last()[i] == s[i]);
        }
        lemma_filter_agrees(s.drop_last(), p, q);
    }
}

proof fn lemma_first_of_each_push(keys: Seq<Option<Seq<char>>>, key: Option<Seq<char>>)
    ensures
        first_of_each(keys.push(key)) == (if key is Some && !keys.contains(key) {
            first_of_each(keys).push(keys.len())
        } else {
            first_of_each(keys)
        }),
{
    reveal(Seq::filter);
    let longer = keys.push(key);
    let p = |i: nat| keys[i as int] is Some && !keys.take(i as int).contains(keys[i as int]);
    let q = |i: nat| longer[i as int] is Some && !longer.take(i as int).contains(longer[i as int]);
    let few = Seq::new(keys.len(), |i: int| i as nat);
    let all = Seq::new(longer.len(), |i: int| i as nat);
    assert forall|i: int| 0 <= i < few.len() implies p(#[trigger] few[i]) == q(few[i]) by {
        assert(longer.take(i) =~= keys.take(i));
        assert(longer[i] == keys[i]);
    }
    lemma_filter_agrees(few, p, q);
    assert(all.drop_last() =~= few);
    assert(longer.take(keys.len() as int) =~= keys);
    assert(q(all.last()) == (key is Some && !keys.contains(key)));
}

/// How many known nodes a sweep that has not ended early has added.
spec fn nodes_added(s: SweepView) -> nat {
    match s.stage {
        StageView::Adding(i) => i,
        _ => s.listed,
    }
}

spec fn behind_listing(s: SweepView) -> bool {
    s.stage is Adding || s.stage is Known || s.stage is AfterKnown || s.stage is NotFound
}

/// What a sweep behind the listing keeps is what the answers before it said.
proof fn lemma_kept_nodes(bootstrap: nat, events: Seq<SweepEventView>)
    requires
        is_history(bootstrap, events),
        behind_listing(run(bootstrap, events)),
    ensures
        ({
            let s = run(bootstrap, events);
            let keys = keys_given(bootstrap, events, nodes_added(s));
            &&& events.len() >= 2 * bootstrap + 2 + nodes_added(s)
            &&& events[(2 * bootstrap + 1) as int] == SweepEventView::Listed(Some(s.listed))
            &&& s.kept == first_of_each(keys)
            &&& forall|id: Seq<char>| #[trigger] s.ids.contains(id) <==> keys.contains(Some(id))
        }),
    decreases events.len(),
{
    let shorter = events.drop_last();
    let s = run(bootstrap, shorter);
    let t = run(bootstrap, events);
    let event = events.last();
    lemma_counts(bootstrap, events);
    lemma_history_prefix(bootstrap, events);
    lemma_counts(bootstrap, shorter);
    if s.stage is Listing {
        assert(shorter.len() == 2 * bootstrap + 1);
        assert(t.kept.len() == 0);
        assert(nodes_added(t) == 0);
        let keys = keys_given(bootstrap, events, 0);
        reveal(Seq::filter);
        assert(first_of_each(keys) =~= Seq::<nat>::empty());
        assert(t.kept =~= first_of_each(keys));
        assert forall|id: Seq<char>| #[trigger] t.ids.contains(id) <==> keys.contains(Some(id)) by {}
    } else {
        lemma_kept_nodes(bootstrap, shorter);
        let n = nodes_added(s);
        let before = keys_given(bootstrap, shorter, n);
        assert(before =~= keys_given(bootstrap, events, n));
        assert(events[(2 * bootstrap + 1) as int] == shorter[(2 * bootstrap + 1) as int]);
        if s.stage is Adding {
            let key = key_in(event);
            let keys = keys_given(bootstrap, events, n + 1);
            assert(shorter.len() == 2 * bootstrap + 2 + n);
            assert(keys =~= before.push(key));
            assert(nodes_added(t) == n + 1);
            lemma_first_of_each_push(before, key);
            if let Some(id) = key {
                assert(s.ids.contains(id) <==> before.contains(Some(id)));
            }
            assert forall|id: Seq<char>| #[trigger] t.ids.contains(id) <==> keys.contains(
                Some(id),
            ) by {
                assert(s.ids.contains(id) <==> before.contains(Some(id)));
                if before.contains(Some(id)) {
                    let k = choose|k: int| 0 <= k < before.len() && before[k] == Some(id);
                    assert(keys[k] == Some(id));
                }
                if keys.contains(Some(id)) {
                    let k = choose|k: int| 0 <= k < keys.len() && keys[k] == Some(id);
                    assert(k < before.len() ==> before[k] == Some(id));
                }
                if s.ids.contains(id) {
                    let k = choose|k: int| 0 <= k < s.ids.len() && s.ids[k] == id;
                    assert(t.ids[k] == id);
                }
                if t.ids.contains(id) {
                    let k = choose|k: int| 0 <= k < t.ids.len() && t.ids[k] == id;
                    assert(k < s.ids.len() ==> s.ids[k] == id);
                }
                if key == Some(id) {
                    assert(keys[n as int] == Some(id));
                    if !s.ids.contains(id) {
                        assert(t.ids[s.ids.len() as int] == id);
                    }
                }
            }
        } else {
            assert(t.ids == s.ids);
            assert(t.kept == s.kept);
            assert(nodes_added(t) == n);
        }
    }
}

proof fn lemma_not_final_goes_on(bootstrap: nat, events: Seq<SweepEventView>)
    requires
        is_history(bootstrap, events),
        forall|k: int| 0 <= k < events.len() ==> !is_final(#[trigger] events[k]),
    ensures
        !(run(bootstrap, events).stage is Found),
        !(run(bootstrap, events).stage is Failed),
    decreases events.len(),
{
    if events.len() > 0 {
        let shorter = events.drop_last();
        lemma_history_prefix(bootstrap, events);
        assert forall|k: int| 0 <= k < shorter.len() implies !is_final(#[trigger] shorter[k]) by {
            assert(shorter[k] == events[k]);
        }
        lemma_not_final_goes_on(bootstrap, shorter);
        assert(!is_final(events[events.len() - 1]));
    }
}

/// The timetable of a sweep. After so many answers, none of them final, the request due is:
/// a search; then, for each bootstrap peer in turn, to ask it and to search; then to list
/// the known nodes; then to add each of as many as the answer to that counted; then, for
/// the first of these under each key, in turn, to ask it and to search; and then nothing.
pub proof fn law_requests_follow_the_timetable(bootstrap: nat, events: Seq<SweepEventView>)
    requires
        is_history(bootstrap, events),
        forall|k: int| 0 <= k < events.len() ==> !is_final(#[trigger] events[k]),
    ensures
        ({
            let due = run(bootstrap, events).action();
            let n = events.len();
            &&& n == 0 ==> due is Search
            &&& 0 < n <= 2 * bootstrap && n % 2 == 1 ==> due == SweepActionView::PingBootstrap(
                ((n - 1) / 2) as nat,
            )
            &&& 0 < n <= 2 * bootstrap && n % 2 == 0 ==> due is Search
            &&& n == 2 * bootstrap + 1 ==> due is ListKnown
            &&& n >= 2 * bootstrap + 2 ==> (events[(2 * bootstrap
                + 1) as int] matches SweepEventView::Listed(Some(count)) && {
                let first = 2 * bootstrap + 2;
                let kept = first_of_each(keys_given(bootstrap, events, count));
                &&& n < first + count ==> due == SweepActionView::AddKnown((n - first) as nat)
                &&& first + count <= n < first + count + 2 * kept.len() && (n - first - count) % 2
                    == 0 ==> due == SweepActionView::PingKnown(kept[(n - first - count) / 2])
                &&& first + count <= n < first + count + 2 * kept.len() && (n - first - count) % 2
                    == 1 ==> due is Search
                &&& n >= first + count + 2 * kept.len() ==> due is Finished
            })
        }),
{
    let s = run(bootstrap, events);
    lemma_not_final_goes_on(bootstrap, events);
    lemma_counts(bootstrap, events);
    if behind_listing(s) {
        lemma_kept_nodes(bootstrap, events);
    }
}

proof fn lemma_front_is_history(bootstrap: nat, events: Seq<SweepEventView>, k: int)
    requires
        is_history(bootstrap, events),
        0 <= k <= events.len(),
    ensures
        is_history(bootstrap, events.take(k)),
    decreases events.len() - k,
{
    if k < events.len() {
        lemma_front_is_history(bootstrap, events, k + 1);
        lemma_history_prefix(bootstrap, events.take(k + 1));
        assert(events.take(k + 1).drop_last() =~= events.take(k));
    } else {
        assert(events.take(k) =~= events);
    }
}

proof fn lemma_only_last_is_final(bootstrap: nat, events: Seq<SweepEventView>, k: int)
    requires
        is_history(bootstrap, events),
        0 <= k < events.len() - 1,
    ensures
        !is_final(events[k]),
{
    let front = events.take(k + 1);
    lemma_front_is_history(bootstrap, events, k + 1);
    lemma_history_prefix(bootstrap, front);
    assert(front.drop_last() =~= events.take(k));
    assert(front.last() == events[k]);
    assert(answers(asked(bootstrap, events, k + 1), events[k + 1]));
}

/// What was asked for with any answer of a history is what the timetable says, whatever
/// came later.
pub proof fn law_each_request_was_due(bootstrap: nat, events: Seq<SweepEventView>, k: int)
    requires
        is_history(bootstrap, events),
        0 <= k < events.len(),
    ensures
        k == 0 ==> asked(bootstrap, events, k) is Search,
        k < 2 * bootstrap && k % 2 == 1 ==> asked(bootstrap, events, k)
            == SweepActionView::PingBootstrap(((k - 1) / 2) as nat),
        k <= 2 * bootstrap && k % 2 == 0 ==> asked(bootstrap, events, k) is Search,
        k == 2 * bootstrap + 1 ==> asked(bootstrap, events, k) is ListKnown,
        k >= 2 * bootstrap + 2 ==> (events[(2 * bootstrap
            + 1) as int] matches SweepEventView::Listed(Some(count)) && (k < 2 * bootstrap + 2
            + count ==> asked(bootstrap, events, k) == SweepActionView::AddKnown(
            (k - 2 * bootstrap - 2) as nat,
        ))),
{
    let front = events.take(k);
    lemma_front_is_history(bootstrap, events, k);
    assert forall|h: int| 0 <= h < front.len() implies !is_final(#[trigger] front[h]) by {
        lemma_only_last_is_final(bootstrap, events, h);
    }
    law_requests_follow_the_timetable(bootstrap, front);
    if k >= 2 * bootstrap + 2 {
        assert(front[(2 * bootstrap + 1) as int] == events[(2 * bootstrap + 1) as int]);
    }
}

/// Whether known node `i` was asked for to be added.
pub open spec fn addition_asked(bootstrap: nat, events: Seq<SweepEventView>, i: nat) -> bool {
    exists|k: int|
        0 <= k < events.len() && #[trigger] asked(bootstrap, events, k)
            == SweepActionView::AddKnown(i)
}

/// Where the known nodes were counted, every one of them is asked for to be added before
/// any is asked for its neighbours, and before the address is reported missing.
pub proof fn law_every_known_node_is_added(
    bootstrap: nat,
    events: Seq<SweepEventView>,
    at: int,
    count: nat,
    i: nat,
)
    requires
        is_history(bootstrap, events),
        0 <= at < events.len(),
        events[at] == SweepEventView::Listed(Some(count)),
        (run(bootstrap, events).action() is PingKnown) || (run(bootstrap, events).action() is Finished
            && !is_final(events[events.len() - 1])),
        i < count,
    ensures
        addition_asked(bootstrap, events, i),
{
    let s = run(bootstrap, events);
    assert forall|h: int| 0 <= h < events.len() implies !is_final(#[trigger] events[h]) by {
        if h < events.len() - 1 {
            lemma_only_last_is_final(bootstrap, events, h);
        }
        if s.action() is PingKnown && h == events.len() - 1 {
            lemma_history_prefix(bootstrap, events);
        }
    }
    law_requests_follow_the_timetable(bootstrap, events);
    law_each_request_was_due(bootstrap, events, at);
    assert(answers(asked(bootstrap, events, at), events[at]));
    let front = events.take(at);
    lemma_front_is_history(bootstrap, events, at);
    assert forall|h: int| 0 <= h < front.len() implies !is_final(#[trigger] front[h]) by {
        assert(front[h] == events[h]);
    }
    lemma_not_final_goes_on(bootstrap, front);
    lemma_counts(bootstrap, front);
    assert(at == 2 * bootstrap + 1);
    let k = 2 * bootstrap + 2 + i as int;
    lemma_counts(bootstrap, events);
    lemma_not_final_goes_on(bootstrap, events);
    lemma_kept_nodes(bootstrap, events);
    assert(k < events.len());
    law_each_request_was_due(bootstrap, events, k);
    assert(asked(bootstrap, events, k) == SweepActionView::AddKnown(i));
}

/// Before the address is reported missing, every key that a known node was added under was
/// asked, with the first node of that key, and searched behind, in vain.
pub proof fn law_every_key_is_swept(
    bootstrap: nat,
    events: Seq<SweepEventView>,
    count: nat,
    i: nat,
    id: Seq<char>,
) -> (h: nat)
    requires
        is_history(bootstrap, events),
        events.len() > 0,
        run(bootstrap, events).action() is Finished,
        !is_final(events[events.len() - 1]),
        events[(2 * bootstrap + 1) as int] == SweepEventView::Listed(Some(count)),
        i < count,
        events[2 * bootstrap + 2 + i as int] == SweepEventView::Added(AdditionView::Peer(id)),
    ensures
        h <= i,
        events[2 * bootstrap + 2 + h as int] == SweepEventView::Added(AdditionView::Peer(id)),
        known_swept(bootstrap, events, h),
{
    let s = run(bootstrap, events);
    assert forall|k: int| 0 <= k < events.len() implies !is_final(#[trigger] events[k]) by {
        if k < events.len() - 1 {
            lemma_only_last_is_final(bootstrap, events, k);
        }
    }
    lemma_not_final_goes_on(bootstrap, events);
    assert(s.stage is NotFound);
    law_missing_only_after_full_sweep(bootstrap, events);
    lemma_kept_nodes(bootstrap, events);
    let keys = keys_given(bootstrap, events, count);
    assert(keys[i as int] == Some(id));
    let h = lemma_first_holds(keys, i as int);
    let j = lemma_first_is_listed(keys, h);
    assert(s.kept[j] == h as nat);
    assert(known_swept(bootstrap, events, s.kept[j]));
    assert(key_in(events[2 * bootstrap + 2 + h]) == Some(id));
    h as nat
}

proof fn lemma_first_holds(keys: Seq<Option<Seq<char>>>, i: int) -> (h: int)
    requires
        0 <= i < keys.len(),
    ensures
        0 <= h <= i,
        keys[h] == keys[i],
        !keys.take(h).contains(keys[h]),
    decreases i,
{
    if keys.take(i).contains(keys[i]) {
        let k = choose|k: int| 0 <= k < i && keys.take(i)[k] == keys[i];
        lemma_first_holds(keys, k)
    } else {
        i
    }
}

proof fn lemma_first_is_listed(keys: Seq<Option<Seq<char>>>, h: int) -> (j: int)
    requires
        0 <= h < keys.len(),
        keys[h] is Some,
        !keys.take(h).contains(keys[h]),
    ensures
        0 <= j < first_of_each(keys).len(),
        first_of_each(keys)[j] == h,
    decreases keys.len(),
{
    let shorter = keys.drop_last();
    let key = keys.last();
    assert(shorter.push(key) =~= keys);
    lemma_first_of_each_push(shorter, key);
    if h < shorter.len() {
        assert(shorter.take(h) =~= keys.take(h));
        lemma_first_is_listed(shorter, h)
    } else {
        assert(keys.take(h) =~= shorter);
        first_of_each(shorter).len() as int
    }
}

/// What is said of bootstrap peer `i` in the report, by its answer.
pub open spec fn complaint(i: nat, event: SweepEventView) -> Option<Seq<char>> {
    match event {
        SweepEventView::Pinged(PingView::Silent) => Some(
            "bootstrap #"@ + text::decimal(i + 1) + " did not respond"@,
        ),
        SweepEventView::Pinged(PingView::Failed(error)) => Some(
            "bootstrap #"@ + text::decimal(i + 1) + ": "@ + error,
        ),
        _ => None,
    }
}

/// The answers of the first `n` bootstrap peers.
pub open spec fn peer_answers(events: Seq<SweepEventView>, n: nat) -> Seq<SweepEventView> {
    Seq::new(n, |i: int| events[1 + 2 * i])
}

/// What is said of the first `n` bootstrap peers in the report.
pub open spec fn complaints(events: Seq<SweepEventView>, n: nat) -> Seq<Seq<char>> {
    Seq::new(n, |i: int| complaint(i as nat, events[1 + 2 * i])).filter_map(
        |o: Option<Seq<char>>| o,
    )
}

spec fn peers_counted(s: SweepView) -> nat {
    match s.stage {
        StageView::First => 0,
        StageView::Bootstrap(i) => i,
        StageView::AfterBootstrap(i) => i + 1,
        _ => s.bootstrap,
    }
}

proof fn lemma_peers_counted(bootstrap: nat, events: Seq<SweepEventView>)
    requires
        is_history(bootstrap, events),
        !(run(bootstrap, events).stage is Found),
        !(run(bootstrap, events).stage is Failed),
    ensures
        ({
            let s = run(bootstrap, events);
            let n = peers_counted(s);
            &&& n > 0 ==> events.len() >= 2 * n
            &&& s.responsive == peer_answers(events, n).filter(
                |e: SweepEventView| e == SweepEventView::Pinged(PingView::Responded),
            ).len()
            &&& s.errors == complaints(events, n)
        }),
    decreases events.len(),
{
    let responded = |e: SweepEventView| e == SweepEventView::Pinged(PingView::Responded);
    let same = |o: Option<Seq<char>>| o;
    let t = run(bootstrap, events);
    lemma_counts(bootstrap, events);
    if events.len() == 0 {
        reveal(Seq::filter);
        assert(peer_answers(events, 0) =~= Seq::<SweepEventView>::empty());
        assert(complaints(events, 0) =~= Seq::<Seq<char>>::empty());
    } else {
        let shorter = events.drop_last();
        let s = run(bootstrap, shorter);
        let n = peers_counted(s);
        lemma_history_prefix(bootstrap, events);
        lemma_counts(bootstrap, shorter);
        lemma_peers_counted(bootstrap, shorter);
        assert(peer_answers(events, n) =~= peer_answers(shorter, n));
        assert(Seq::new(n, |i: int| complaint(i as nat, events[1 + 2 * i])) =~= Seq::new(
            n,
            |i: int| complaint(i as nat, shorter[1 + 2 * i]),
        ));
        if s.stage is Bootstrap {
            assert(shorter.len() == 1 + 2 * n);
            assert(peers_counted(t) == n + 1);
            reveal(Seq::filter);
            assert(peer_answers(events, n + 1).drop_last() =~= peer_answers(events, n));
            let all = Seq::new(n + 1, |i: int| complaint(i as nat, events[1 + 2 * i]));
            all.lemma_filter_map_take_succ(same, n as int);
            assert(all.take(n as int + 1) =~= all);
            assert(all.take(n as int) =~= Seq::new(
                n,
                |i: int| complaint(i as nat, events[1 + 2 * i]),
            ));
            assert(t.errors =~= complaints(events, n + 1));
        } else {
            assert(peers_counted(t) == n);
        }
    }
}

/// A sweep that ends with no final answer reports the address as not found, with the
/// number of bootstrap peers, the number of those that responded, and a message for each
/// that did not, in their order, with its number counted from one.
pub proof fn law_report_names_the_silent_peers(bootstrap: nat, events: Seq<SweepEventView>)
    requires
        is_history(bootstrap, events),
        run(bootstrap, events).action() is Finished,
        forall|k: int| 0 <= k < events.len() ==> !is_final(#[trigger] events[k]),
    ensures
        run(bootstrap, events).outcome() == Err::<AddressView, Seq<char>>(
            "address not found after checking "@ + text::decimal(bootstrap)
                + " bootstrap DHT peers ("@ + text::decimal(
                peer_answers(events, bootstrap).filter(
                    |e: SweepEventView| e == SweepEventView::Pinged(PingView::Responded),
                ).len(),
            ) + " responsive)"@ + details(complaints(events, bootstrap)),
        ),
{
    lemma_not_final_goes_on(bootstrap, events);
    lemma_counts(bootstrap, events);
    lemma_peers_counted(bootstrap, events);
}

/// Each message stands behind a semicolon and a blank, and nothing where there is none.
pub proof fn law_details_list_the_messages(errors: Seq<Seq<char>>, error: Seq<char>)
    ensures
        details(Seq::empty()).len() == 0,
        details(errors.push(error)) == details(errors) + "; "@ + error,
{
    assert(errors.push(error).drop_last() =~= errors);
}

/// The last answer of a sweep, where it is final, is how the sweep ends.
pub proof fn law_final_answer_is_the_outcome(bootstrap: nat, events: Seq<SweepEventView>)
    requires
        is_history(bootstrap, events),
        events.len() > 0,
        is_final(events[events.len() - 1]),
    ensures
        run(bootstrap, events).action() is Finished,
        run(bootstrap, events).outcome() == (match events[events.len() - 1] {
            SweepEventView::Searched(SearchView::Found(address)) => Ok::<AddressView, Seq<char>>(
                address,
            ),
            SweepEventView::Searched(SearchView::Failed(error)) => Err(error),
            SweepEventView::Listed(_) => Err("failed to read known DHT nodes"@),
            _ => Err("failed to add known DHT node"@),
        }),
{
    lemma_history_prefix(bootstrap, events);
}

/// An address search that fails says so, one without an address is missing, and the text of
/// an address is found as its endpoint, or fails with the reason why it has none.
pub proof fn law_search_replies_are_told_apart(error: Seq<char>, display: Seq<char>)
    ensures
        search_of_reply(Err(error)) == SearchView::Failed(error),
        search_of_reply(Ok(None)) == SearchView::Missing,
        resolution::endpoint(display) matches Ok(address) ==> search_of_reply(Ok(Some(display)))
            == SearchView::Found(address),
        resolution::endpoint(display) matches Err(reason) ==> search_of_reply(Ok(Some(display)))
            == SearchView::Failed(reason.text(display)),
{
}

/// A lookup that took too long says how many seconds it was given.
pub proof fn law_timeout_names_its_limit(secs: nat)
    ensures
        timeout_text(secs) == "lookup timed out after "@ + text::decimal(secs) + "s"@,
{
}

/// An answer and a request are seen for what they are.
pub proof fn law_answers_are_seen_whole(event: SweepEvent, action: SweepAction)
    ensures
        event matches SweepEvent::Searched(Search::Found(address)) ==> event@
            == SweepEventView::Searched(SearchView::Found(address@)),
        event matches SweepEvent::Searched(Search::Missing) ==> event@ == SweepEventView::Searched(
            SearchView::Missing,
        ),
        event matches SweepEvent::Searched(Search::Failed(error)) ==> event@
            == SweepEventView::Searched(SearchView::Failed(error@)),
        event matches SweepEvent::Pinged(Ping::Responded) ==> event@ == SweepEventView::Pinged(
            PingView::Responded,
        ),
        event matches SweepEvent::Pinged(Ping::Silent) ==> event@ == SweepEventView::Pinged(
            PingView::Silent,
        ),
        event matches SweepEvent::Pinged(Ping::Failed(error)) ==> event@ == SweepEventView::Pinged(
            PingView::Failed(error@),
        ),
        event matches SweepEvent::Listed(Some(count)) ==> event@ == SweepEventView::Listed(
            Some(count as nat),
        ),
        event matches SweepEvent::Listed(None) ==> event@ == SweepEventView::Listed(None),
        event matches SweepEvent::Added(Addition::Peer(id)) ==> event@ == SweepEventView::Added(
            AdditionView::Peer(id@),
        ),
        event matches SweepEvent::Added(Addition::Skipped) ==> event@ == SweepEventView::Added(
            AdditionView::Skipped,
        ),
        event matches SweepEvent::Added(Addition::Failed) ==> event@ == SweepEventView::Added(
            AdditionView::Failed,
        ),
        action is Search <==> action@ is Search,
        action is ListKnown <==> action@ is ListKnown,
        action is Finished <==> action@ is Finished,
        action matches SweepAction::PingBootstrap(i) ==> action@ == SweepActionView::PingBootstrap(
            i as nat,
        ),
        action matches SweepAction::AddKnown(i) ==> action@ == SweepActionView::AddKnown(i as nat),
        action matches SweepAction::PingKnown(i) ==> action@ == SweepActionView::PingKnown(
            i as nat,
        ),
{
}

} // verus!
