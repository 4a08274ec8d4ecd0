//! Transactions of pages: Studio sends large changes page by page, each page may
//! come again, and a whole transaction is written at once.

use crate::hashing::{blake3_digest, blake3_hash};
use crate::managed_hierarchy::{le_bytes, push_le};
use crate::text::{push_bytes, text_bytes};
use vstd::prelude::*;
use vstd::string::StringSliceAdditionalSpecFns;

verus! {

pub const MAX_ACTIVE_TRANSACTIONS: usize = 4;

pub const MAX_PAGE_BYTES: usize = 8_388_608;

pub const MAX_TRANSACTION_BYTES: u64 = 68_719_476_736;

/// After that many milliseconds without a page a transaction is dropped.
pub const TRANSACTION_TIMEOUT: u64 = 300_000;

/// For that many milliseconds a committed transaction is remembered.
pub const COMPLETED_TRANSACTION_TTL: u64 = 3_600_000;

/// That many milliseconds pass between two clean-ups.
pub const TRANSACTION_CLEANUP_INTERVAL: u64 = 60_000;

/// Why a page or a spool is refused.
#[derive(Debug, Clone, Copy, PartialEq, Eq, Structural)]
pub enum TransactionError {
    InvalidId,
    PageTooLarge,
    UnexpectedReplay,
    CommittedReplayDiffers,
    AcceptedReplayDiffers,
    OutOfSequence,
    NotAtZero,
    TooMany,
    BytesOverflow,
    TransactionTooLarge,
    OversizedPage,
    Truncated,
}

impl TransactionError {
    pub open spec fn text(self) -> Seq<char> {
        match self {
            TransactionError::InvalidId => "invalid transaction id"@,
            TransactionError::PageTooLarge => "transaction page exceeds 8 MiB"@,
            TransactionError::UnexpectedReplay => "transaction replay has an unexpected page"@,
            TransactionError::CommittedReplayDiffers =>
                "transaction replay page does not match its committed receipt"@,
            TransactionError::AcceptedReplayDiffers => "transaction replay page does not match its accepted receipt"@,
            TransactionError::OutOfSequence => "transaction page is out of sequence"@,
            TransactionError::NotAtZero => "transaction must start at sequence zero"@,
            TransactionError::TooMany => "too many active transactions"@,
            TransactionError::BytesOverflow => "transaction byte count overflow"@,
            TransactionError::TransactionTooLarge => "transaction exceeds 64 GiB"@,
            TransactionError::OversizedPage => "transaction spool contains an oversized page"@,
            TransactionError::Truncated => "transaction spool ends inside a page"@,
        }
    }

    pub fn message(&self) -> (message: String)
        ensures
            message@ == self.text(),
    {
        match self {
            TransactionError::InvalidId => "invalid transaction id".to_owned(),
            TransactionError::PageTooLarge => "transaction page exceeds 8 MiB".to_owned(),
            TransactionError::UnexpectedReplay => "transaction replay has an unexpected page".to_owned(),
            TransactionError::CommittedReplayDiffers =>
                "transaction replay page does not match its committed receipt".to_owned(),
            TransactionError::AcceptedReplayDiffers =>
                "transaction replay page does not match its accepted receipt".to_owned(),
            TransactionError::OutOfSequence => "transaction page is out of sequence".to_owned(),
            TransactionError::NotAtZero => "transaction must start at sequence zero".to_owned(),
            TransactionError::TooMany => "too many active transactions".to_owned(),
            TransactionError::BytesOverflow => "transaction byte count overflow".to_owned(),
            TransactionError::TransactionTooLarge => "transaction exceeds 64 GiB".to_owned(),
            TransactionError::OversizedPage => "transaction spool contains an oversized page".to_owned(),
            TransactionError::Truncated => "transaction spool ends inside a page".to_owned(),
        }
    }
}

/// What a page was: its digest, and whether it was the last one.
#[derive(Debug, Clone, Copy)]
pub struct PageReceipt {
    pub digest: (u128, u128),
    pub done: bool,
}

/// A transaction whose pages are still coming.
#[derive(Debug)]
pub struct Spool {
    pub client_id: u32,
    pub transaction_id: String,
    pub path: String,
    pub pages: Vec<PageReceipt>,
    pub bytes: u64,
    pub last_activity: u64,
}

#[verifier::ext_equal]
pub struct SpoolView {
    pub key: (u32, Seq<char>),
    pub path: Seq<char>,
    pub pages: Seq<PageReceipt>,
    pub bytes: u64,
    pub last_activity: u64,
}

impl View for Spool {
    type V = SpoolView;

    open spec fn view(&self) -> SpoolView {
        SpoolView {
            key: (self.client_id, self.transaction_id@),
            path: self.path@,
            pages: self.pages@,
            bytes: self.bytes,
            last_activity: self.last_activity,
        }
    }
}

/// A transaction that is written.
#[derive(Debug)]
pub struct CompletedTransaction {
    pub client_id: u32,
    pub transaction_id: String,
    pub pages: Vec<PageReceipt>,
    pub source_generation: String,
    pub committed_at: u64,
}

#[verifier::ext_equal]
pub struct CompletedView {
    pub key: (u32, Seq<char>),
    pub pages: Seq<PageReceipt>,
    pub source_generation: Seq<char>,
    pub committed_at: u64,
}

impl View for CompletedTransaction {
    type V = CompletedView;

    open spec fn view(&self) -> CompletedView {
        CompletedView {
            key: (self.client_id, self.transaction_id@),
            pages: self.pages@,
            source_generation: self.source_generation@,
            committed_at: self.committed_at,
        }
    }
}

/// The transactions of a service. Times are milliseconds of one clock.
#[derive(Debug)]
pub struct TransactionState {
    pub spools: Vec<Spool>,
    pub completed: Vec<CompletedTransaction>,
    pub last_cleanup: u64,
}

#[verifier::ext_equal]
pub struct TransactionsView {
    pub spools: Seq<SpoolView>,
    pub completed: Seq<CompletedView>,
    pub last_cleanup: u64,
}

pub open spec fn spool_views(list: Seq<Spool>) -> Seq<SpoolView> {
    list.map_values(|spool: Spool| spool@)
}

pub open spec fn completed_views(list: Seq<CompletedTransaction>) -> Seq<CompletedView> {
    list.map_values(|completed: CompletedTransaction| completed@)
}

impl View for TransactionState {
    type V = TransactionsView;

    open spec fn view(&self) -> TransactionsView {
        TransactionsView {
            spools: spool_views(self.spools@),
            completed: completed_views(self.completed@),
            last_cleanup: self.last_cleanup,
        }
    }
}

/// How long ago something was.
pub open spec fn elapsed(now: u64, then: u64) -> int {
    if now >= then {
        now - then
    } else {
        0
    }
}

/// The place of a transaction that is coming in.
pub open spec fn spool_place(spools: Seq<SpoolView>, key: (u32, Seq<char>)) -> Option<int>
    decreases spools.len(),
{
    if spools.len() == 0 {
        None
    } else if spools.last().key == key {
        Some(spools.len() - 1)
    } else {
        spool_place(spools.drop_last(), key)
    }
}

/// The place of a transaction that is written.
pub open spec fn completed_place(completed: Seq<CompletedView>, key: (u32, Seq<char>)) -> Option<int>
    decreases completed.len(),
{
    if completed.len() == 0 {
        None
    } else if completed.last().key == key {
        Some(completed.len() - 1)
    } else {
        completed_place(completed.drop_last(), key)
    }
}

/// Those that are not stale.
pub open spec fn fresh_spools(spools: Seq<SpoolView>, now: u64) -> Seq<SpoolView>
    decreases spools.len(),
{
    if spools.len() == 0 {
        Seq::empty()
    } else {
        let rest = fresh_spools(spools.drop_last(), now);
        if elapsed(now, spools.last().last_activity) < TRANSACTION_TIMEOUT {
            rest.push(spools.last())
        } else {
            rest
        }
    }
}

/// The files of the stale ones.
pub open spec fn stale_paths(spools: Seq<SpoolView>, now: u64) -> Seq<Seq<char>>
    decreases spools.len(),
{
    if spools.len() == 0 {
        Seq::empty()
    } else {
        let rest = stale_paths(spools.drop_last(), now);
        if elapsed(now, spools.last().last_activity) < TRANSACTION_TIMEOUT {
            rest
        } else {
            rest.push(spools.last().path)
        }
    }
}

/// The written ones that are still remembered.
pub open spec fn remembered(completed: Seq<CompletedView>, now: u64) -> Seq<CompletedView>
    decreases completed.len(),
{
    if completed.len() == 0 {
        Seq::empty()
    } else {
        let rest = remembered(completed.drop_last(), now);
        if elapsed(now, completed.last().committed_at) < COMPLETED_TRANSACTION_TTL {
            rest.push(completed.last())
        } else {
            rest
        }
    }
}

/// The transactions once stale ones are dropped, if that is due.
pub open spec fn cleaned(state: TransactionsView, now: u64) -> TransactionsView {
    if elapsed(now, state.last_cleanup) < TRANSACTION_CLEANUP_INTERVAL {
        state
    } else {
        TransactionsView {
            spools: fresh_spools(state.spools, now),
            completed: remembered(state.completed, now),
            last_cleanup: now,
        }
    }
}

/// What is to be done with a page.
pub enum PageAction {
    /// The transaction is written: its generation.
    Committed(String),
    /// The page was accepted before.
    Accepted,
    /// The only page: write its changes, then complete the transaction.
    WriteDirect,
    /// Append the page to the spool, then record it.
    Append { path: String },
}

pub enum PageActionView {
    Committed(Seq<char>),
    Accepted,
    WriteDirect,
    Append { path: Seq<char> },
}

impl View for PageAction {
    type V = PageActionView;

    open spec fn view(&self) -> PageActionView {
        match self {
            PageAction::Committed(generation) => PageActionView::Committed(generation@),
            PageAction::Accepted => PageActionView::Accepted,
            PageAction::WriteDirect => PageActionView::WriteDirect,
            PageAction::Append { path } => PageActionView::Append { path: path@ },
        }
    }
}

/// A page that comes in.
pub struct Page {
    pub client_id: u32,
    pub transaction_id: String,
    pub sequence: u32,
    pub done: bool,
}

impl Page {
    pub open spec fn key(self) -> (u32, Seq<char>) {
        (self.client_id, self.transaction_id@)
    }
}

/// What was done with a page: the transactions after it, and what is to be done.
#[verifier::ext_equal]
pub struct Paged {
    pub state: TransactionsView,
    pub result: Result<PageActionView, TransactionError>,
}

/// Why a page is refused before any transaction is looked at.
pub open spec fn malformed(page: Page, encoded: Seq<u8>) -> Option<TransactionError> {
    let id = text_bytes(page.transaction_id@);
    if id.len() == 0 || id.len() > 128 {
        Some(TransactionError::InvalidId)
    } else if encoded.len() > MAX_PAGE_BYTES {
        Some(TransactionError::PageTooLarge)
    } else {
        None
    }
}

/// What a page comes to in a spool.
pub open spec fn spooled(
    state: TransactionsView,
    place: int,
    page: Page,
    encoded: Seq<u8>,
    now: u64,
) -> Paged {
    let spool = state.spools[place];
    let receipt = PageReceipt { digest: blake3_hash(encoded), done: page.done };
    if page.sequence < spool.pages.len() {
        if spool.pages[page.sequence as int] != receipt {
            Paged { state, result: Err(TransactionError::AcceptedReplayDiffers) }
        } else {
            Paged {
                state: TransactionsView {
                    spools: state.spools.update(place, SpoolView { last_activity: now, ..spool }),
                    ..state
                },
                result: Ok(PageActionView::Accepted),
            }
        }
    } else if page.sequence != spool.pages.len() {
        Paged { state, result: Err(TransactionError::OutOfSequence) }
    } else if spool.bytes + encoded.len() + 4 > u64::MAX {
        Paged { state, result: Err(TransactionError::BytesOverflow) }
    } else if spool.bytes + encoded.len() + 4 > MAX_TRANSACTION_BYTES {
        Paged { state, result: Err(TransactionError::TransactionTooLarge) }
    } else {
        Paged { state, result: Ok(PageActionView::Append { path: spool.path }) }
    }
}

/// What becomes of a page. `path` names the file of a new transaction.
pub open spec fn paged(state: TransactionsView, page: Page, encoded: Seq<u8>, path: Seq<char>, now: u64) -> Paged {
    let receipt = PageReceipt { digest: blake3_hash(encoded), done: page.done };
    match completed_place(state.completed, page.key()) {
        Some(place) => {
            let completed = state.completed[place];
            if page.sequence >= completed.pages.len() {
                Paged { state, result: Err(TransactionError::UnexpectedReplay) }
            } else if completed.pages[page.sequence as int] != receipt {
                Paged { state, result: Err(TransactionError::CommittedReplayDiffers) }
            } else {
                Paged { state, result: Ok(PageActionView::Committed(completed.source_generation)) }
            }
        },
        None => match spool_place(state.spools, page.key()) {
            Some(place) => if page.sequence == 0 && page.done {
                Paged { state, result: Err(TransactionError::OutOfSequence) }
            } else {
                spooled(state, place, page, encoded, now)
            },
            None => if page.sequence == 0 && page.done {
                Paged { state, result: Ok(PageActionView::WriteDirect) }
            } else if page.sequence != 0 {
                Paged { state, result: Err(TransactionError::NotAtZero) }
            } else if state.spools.len() >= MAX_ACTIVE_TRANSACTIONS {
                Paged { state, result: Err(TransactionError::TooMany) }
            } else {
                let opened = TransactionsView {
                    spools: state.spools.push(
                        SpoolView { key: page.key(), path, pages: Seq::empty(), bytes: 0, last_activity: now },
                    ),
                    ..state
                };
                spooled(opened, state.spools.len() as int, page, encoded, now)
            },
        },
    }
}

fn passed(now: u64, then: u64) -> (time: u64)
    ensures
        time == elapsed(now, then),
{
    if now >= then {
        now - then
    } else {
        0
    }
}

fn same_receipt(left: PageReceipt, right: PageReceipt) -> (same: bool)
    ensures
        same == (left == right),
{
    left.digest.0 == right.digest.0 && left.digest.1 == right.digest.1 && left.done == right.done
}

fn find_spool(spools: &Vec<Spool>, client_id: u32, transaction_id: &str) -> (place: Option<usize>)
    ensures
        match spool_place(spool_views(spools@), (client_id, transaction_id@)) {
            Some(found) => place matches Some(place) && place == found && place < spools@.len()
                && spools@[place as int]@.key == (client_id, transaction_id@),
            None => place is None,
        },
{
    let ghost all = spool_views(spools@);
    let ghost key = (client_id, transaction_id@);
    let mut at: usize = spools.len();
    proof {
        assert(all.take(at as int) =~= all);
    }
    while at > 0
        invariant
            at <= spools@.len(),
            all == spool_views(spools@),
            key == (client_id, transaction_id@),
            spool_place(all, key) == spool_place(all.take(at as int), key),
        decreases at,
    {
        at = at - 1;
        proof {
            assert(all.take(at + 1).drop_last() =~= all.take(at as int));
            assert(all.take(at + 1).last() == spools@[at as int]@);
        }
        if spools[at].client_id == client_id && spools[at].transaction_id.as_str().eq(transaction_id) {
            return Some(at);
        }
    }
    None
}

fn find_completed(completed: &Vec<CompletedTransaction>, client_id: u32, transaction_id: &str) -> (place: Option<usize>)
    ensures
        match completed_place(completed_views(completed@), (client_id, transaction_id@)) {
            Some(found) => place matches Some(place) && place == found && place < completed@.len(),
            None => place is None,
        },
{
    let ghost all = completed_views(completed@);
    let ghost key = (client_id, transaction_id@);
    let mut at: usize = completed.len();
    proof {
        assert(all.take(at as int) =~= all);
    }
    while at > 0
        invariant
            at <= completed@.len(),
            all == completed_views(completed@),
            key == (client_id, transaction_id@),
            completed_place(all, key) == completed_place(all.take(at as int), key),
        decreases at,
    {
        at = at - 1;
        proof {
            assert(all.take(at + 1).drop_last() =~= all.take(at as int));
            assert(all.take(at + 1).last() == completed@[at as int]@);
        }
        if completed[at].client_id == client_id && completed[at].transaction_id.as_str().eq(transaction_id) {
            return Some(at);
        }
    }
    None
}

impl TransactionState {
    /// No transactions.
    pub fn new(now: u64) -> (state: TransactionState)
        ensures
            state@ == (TransactionsView { spools: Seq::empty(), completed: Seq::empty(), last_cleanup: now }),
    {
        let state: TransactionState = TransactionState {
            spools: Vec::new(),
            completed: Vec::new(),
            last_cleanup: now,
        };
        proof {
            assert(state@.spools =~= Seq::empty());
            assert(state@.completed =~= Seq::empty());
        }
        state
    }

    /// Drops stale transactions, if that is due; the result names the files that
    /// are left over.
    pub fn clean_up(&mut self, now: u64) -> (stale: Vec<String>)
        ensures
            final(self)@ == cleaned(old(self)@, now),
            crate::text::texts(stale@) == (if elapsed(now, old(self).last_cleanup) < TRANSACTION_CLEANUP_INTERVAL {
                Seq::empty()
            } else {
                stale_paths(old(self)@.spools, now)
            }),
    {
        let mut stale: Vec<String> = Vec::new();
        if passed(now, self.last_cleanup) < TRANSACTION_CLEANUP_INTERVAL {
            proof {
                assert(crate::text::texts(stale@) =~= Seq::empty());
            }
            return stale;
        }
        let mut old_spools: Vec<Spool> = Vec::new();
        std::mem::swap(&mut old_spools, &mut self.spools);
        let mut old_completed: Vec<CompletedTransaction> = Vec::new();
        std::mem::swap(&mut old_completed, &mut self.completed);
        let ghost spools = spool_views(old_spools@);
        let ghost completed = completed_views(old_completed@);
        let ghost given = old_spools@;
        let ghost written = old_completed@;
        let mut kept: Vec<Spool> = Vec::new();
        proof {
            assert(spools.take(0) =~= Seq::empty());
            assert(spool_views(kept@) =~= Seq::empty());
            assert(crate::text::texts(stale@) =~= Seq::empty());
        }
        for spool in iter: old_spools
            invariant
                iter.seq() == given,
                spools == spool_views(given),
                spool_views(kept@) == fresh_spools(spools.take(iter.index() as int), now),
                crate::text::texts(stale@) == stale_paths(spools.take(iter.index() as int), now),
        {
            assert(spools.take(iter.index() + 1).drop_last() =~= spools.take(iter.index() as int));
            assert(spools.take(iter.index() + 1).last() == spool@);
            let ghost before = spool_views(kept@);
            let ghost names = crate::text::texts(stale@);
            let ghost view = spool@;
            if passed(now, spool.last_activity) < TRANSACTION_TIMEOUT {
                kept.push(spool);
                assert(spool_views(kept@) =~= before.push(view));
            } else {
                stale.push(spool.path);
                assert(crate::text::texts(stale@) =~= names.push(view.path));
            }
        }
        assert(spools.take(spools.len() as int) =~= spools);
        let mut remembered_now: Vec<CompletedTransaction> = Vec::new();
        proof {
            assert(completed.take(0) =~= Seq::empty());
            assert(completed_views(remembered_now@) =~= Seq::empty());
        }
        for transaction in iter: old_completed
            invariant
                iter.seq() == written,
                completed == completed_views(written),
                completed_views(remembered_now@) == remembered(completed.take(iter.index() as int), now),
        {
            assert(completed.take(iter.index() + 1).drop_last() =~= completed.take(iter.index() as int));
            assert(completed.take(iter.index() + 1).last() == transaction@);
            let ghost before = completed_views(remembered_now@);
            let ghost view = transaction@;
            if passed(now, transaction.committed_at) < COMPLETED_TRANSACTION_TTL {
                remembered_now.push(transaction);
                assert(completed_views(remembered_now@) =~= before.push(view));
            }
        }
        assert(completed.take(completed.len() as int) =~= completed);
        self.spools = kept;
        self.completed = remembered_now;
        self.last_cleanup = now;
        stale
    }

    /// Judges a page in the spool at a place.
    fn judge_spooled(&mut self, place: usize, page: &Page, encoded: &[u8], now: u64) -> (result: Result<
        PageAction,
        TransactionError,
    >)
        requires
            place < old(self).spools@.len(),
            encoded@.len() <= MAX_PAGE_BYTES,
        ensures
            ({
                let expected = spooled(old(self)@, place as int, *page, encoded@, now);
                final(self)@ == expected.state && (match expected.result {
                    Ok(action) => result matches Ok(found) && found@ == action,
                    Err(error) => result matches Err(found) && found == error,
                })
            }),
    {
        let receipt: PageReceipt = PageReceipt { digest: blake3_digest(encoded), done: page.done };
        let sequence: usize = page.sequence as usize;
        let spool: &mut Spool = &mut self.spools[place];
        if sequence < spool.pages.len() {
            if !same_receipt(spool.pages[sequence], receipt) {
                proof {
                    assert(self@.spools =~= old(self)@.spools);
                }
                return Err(TransactionError::AcceptedReplayDiffers);
            }
            spool.last_activity = now;
            proof {
                assert(self@.spools =~= old(self)@.spools.update(
                    place as int,
                    SpoolView { last_activity: now, ..old(self)@.spools[place as int] },
                ));
            }
            return Ok(PageAction::Accepted);
        }
        let count: usize = spool.pages.len();
        let bytes: u64 = spool.bytes;
        let path: String = spool.path.clone();
        proof {
            assert(self@.spools =~= old(self)@.spools);
        }
        if sequence != count {
            return Err(TransactionError::OutOfSequence);
        }
        match bytes.checked_add(encoded.len() as u64 + 4) {
            Some(next) => if next > MAX_TRANSACTION_BYTES {
                Err(TransactionError::TransactionTooLarge)
            } else {
                Ok(PageAction::Append { path })
            },
            None => Err(TransactionError::BytesOverflow),
        }
    }

    /// Takes a page: what is to be done with it. `path` names the file of a new
    /// transaction. A page that is to be appended is recorded once it is.
    pub fn write_page(&mut self, page: &Page, encoded: &[u8], path: String, now: u64) -> (result: Result<
        PageAction,
        TransactionError,
    >)
        ensures
            match malformed(*page, encoded@) {
                Some(error) => result == Err::<PageAction, TransactionError>(error) && final(self)@ == old(self)@,
                None => {
                    let expected = paged(old(self)@, *page, encoded@, path@, now);
                    &&& final(self)@ == expected.state
                    &&& match expected.result {
                        Ok(action) => result matches Ok(found) && found@ == action,
                        Err(error) => result matches Err(found) && found == error,
                    }
                },
            },
    {
        let id_bytes: usize = page.transaction_id.as_str().as_bytes().len();
        if id_bytes == 0 || id_bytes > 128 {
            return Err(TransactionError::InvalidId);
        }
        if encoded.len() > MAX_PAGE_BYTES {
            return Err(TransactionError::PageTooLarge);
        }
        let receipt: PageReceipt = PageReceipt { digest: blake3_digest(encoded), done: page.done };
        let ghost state = self@;
        match find_completed(&self.completed, page.client_id, page.transaction_id.as_str()) {
            Some(place) => {
                let completed: &CompletedTransaction = &self.completed[place];
                proof {
                    assert(state.completed[place as int] == completed@);
                }
                if page.sequence as usize >= completed.pages.len() {
                    return Err(TransactionError::UnexpectedReplay);
                }
                if !same_receipt(completed.pages[page.sequence as usize], receipt) {
                    return Err(TransactionError::CommittedReplayDiffers);
                }
                return Ok(PageAction::Committed(completed.source_generation.clone()));
            },
            None => {},
        }
        let place: usize = match find_spool(&self.spools, page.client_id, page.transaction_id.as_str()) {
            Some(place) => {
                if page.sequence == 0 && page.done {
                    return Err(TransactionError::OutOfSequence);
                }
                place
            },
            None => {
                if page.sequence == 0 && page.done {
                    return Ok(PageAction::WriteDirect);
                }
                if page.sequence != 0 {
                    return Err(TransactionError::NotAtZero);
                }
                if self.spools.len() >= MAX_ACTIVE_TRANSACTIONS {
                    return Err(TransactionError::TooMany);
                }
                let opened: Spool = Spool {
                    client_id: page.client_id,
                    transaction_id: page.transaction_id.clone(),
                    path,
                    pages: Vec::new(),
                    bytes: 0,
                    last_activity: now,
                };
                let ghost view = opened@;
                let place: usize = self.spools.len();
                self.spools.push(opened);
                proof {
                    assert(view.pages =~= Seq::empty());
                    assert(self@.spools =~= state.spools.push(view));
                }
                place
            },
        };
        self.judge_spooled(place, page, encoded, now)
    }

    /// Records a page that was appended to its spool. A last page closes the spool
    /// and hands out its file and receipts.
    pub fn record_page(&mut self, page: &Page, encoded: &[u8], now: u64) -> (closed: Option<(String, Vec<PageReceipt>)>)
        requires
            encoded@.len() <= MAX_PAGE_BYTES,
            spool_place(old(self)@.spools, page.key()) matches Some(place) && old(self)@.spools[place].bytes
                + encoded@.len() + 4 <= MAX_TRANSACTION_BYTES,
        ensures
            ({
                let place = spool_place(old(self)@.spools, page.key())->0;
                let before = old(self)@.spools[place];
                let after = SpoolView {
                    pages: before.pages.push(PageReceipt { digest: blake3_hash(encoded@), done: page.done }),
                    bytes: (before.bytes + encoded@.len() + 4) as u64,
                    last_activity: now,
                    ..before
                };
                &&& final(self)@.completed == old(self)@.completed
                &&& final(self)@.last_cleanup == old(self)@.last_cleanup
                &&& if page.done {
                    &&& final(self)@.spools == old(self)@.spools.remove(place)
                    &&& closed matches Some((path, pages)) && path@ == after.path && pages@ == after.pages
                } else {
                    &&& final(self)@.spools == old(self)@.spools.update(place, after)
                    &&& closed is None
                }
            }),
    {
        let ghost spools = self@.spools;
        match find_spool(&self.spools, page.client_id, page.transaction_id.as_str()) {
            Some(place) => {
                let receipt: PageReceipt = PageReceipt { digest: blake3_digest(encoded), done: page.done };
                proof {
                    assert(spools[place as int] == self.spools@[place as int]@);
                }
                let spool: &mut Spool = &mut self.spools[place];
                spool.bytes = spool.bytes + encoded.len() as u64 + 4;
                spool.pages.push(receipt);
                spool.last_activity = now;
                if !page.done {
                    proof {
                        let place = place as int;
                        let before = spools[place];
                        let after = SpoolView {
                            pages: before.pages.push(PageReceipt { digest: blake3_hash(encoded@), done: page.done }),
                            bytes: (before.bytes + encoded@.len() + 4) as u64,
                            last_activity: now,
                            ..before
                        };
                        assert(self@.spools =~= spools.update(place, after));
                    }
                    return None;
                }
                let closed: Spool = self.spools.remove(place);
                proof {
                    assert(self@.spools =~= spools.remove(place as int));
                }
                Some((closed.path, closed.pages))
            },
            None => None,
        }
    }

    /// Remembers a transaction that is written.
    pub fn complete(&mut self, client_id: u32, transaction_id: String, pages: Vec<PageReceipt>, source_generation: String, now: u64)
        ensures
            final(self)@ == (TransactionsView {
                completed: old(self)@.completed.push(
                    CompletedView {
                        key: (client_id, transaction_id@),
                        pages: pages@,
                        source_generation: source_generation@,
                        committed_at: now,
                    },
                ),
                ..old(self)@
            }),
    {
        let completed: CompletedTransaction = CompletedTransaction {
            client_id,
            transaction_id,
            pages,
            source_generation,
            committed_at: now,
        };
        let ghost view = completed@;
        self.completed.push(completed);
        proof {
            assert(self@.completed =~= old(self)@.completed.push(view));
        }
    }

    /// Drops a transaction that is coming in; the result names its file.
    pub fn abort(&mut self, client_id: u32, transaction_id: &str) -> (path: Option<String>)
        ensures
            match spool_place(old(self)@.spools, (client_id, transaction_id@)) {
                Some(place) => {
                    &&& path matches Some(path) && path@ == old(self)@.spools[place].path
                    &&& final(self)@ == (TransactionsView {
                        spools: old(self)@.spools.remove(place),
                        ..old(self)@
                    })
                },
                None => path is None && final(self)@ == old(self)@,
            },
    {
        let ghost spools = self@.spools;
        match find_spool(&self.spools, client_id, transaction_id) {
            Some(place) => {
                proof {
                    assert(spools[place as int] == self.spools@[place as int]@);
                }
                let closed: Spool = self.spools.remove(place);
                proof {
                    assert(self@.spools =~= spools.remove(place as int));
                }
                Some(closed.path)
            },
            None => None,
        }
    }
}

/// The receipts of a transaction with a single page.
pub fn single_receipt(encoded: &[u8]) -> (pages: Vec<PageReceipt>)
    ensures
        pages@ == seq![PageReceipt { digest: blake3_hash(encoded@), done: true }],
{
    let mut pages: Vec<PageReceipt> = Vec::new();
    pages.push(PageReceipt { digest: blake3_digest(encoded), done: true });
    proof {
        assert(pages@ =~= seq![PageReceipt { digest: blake3_hash(encoded@), done: true }]);
    }
    pages
}

/// A written transaction can be sent again: each of its pages is answered with the
/// generation that it was written as, and nothing changes.
pub proof fn law_written_pages_are_answered_again(
    before: TransactionsView,
    completed: CompletedView,
    page: Page,
    encoded: Seq<u8>,
    path: Seq<char>,
    now: u64,
)
    requires
        completed.key == page.key(),
        page.sequence < completed.pages.len(),
        completed.pages[page.sequence as int] == (PageReceipt { digest: blake3_hash(encoded), done: page.done }),
    ensures
        ({
            let state = TransactionsView { completed: before.completed.push(completed), ..before };
            let answered = paged(state, page, encoded, path, now);
            answered.state == state && answered.result == Ok::<PageActionView, TransactionError>(
                PageActionView::Committed(completed.source_generation),
            )
        }),
{
    let all = before.completed.push(completed);
    assert(all.last() == completed);
    assert(all[all.len() - 1] == completed);
}

/// A written transaction is not written over: a page that is not what was written at its
/// place is refused, and nothing changes.
pub proof fn law_written_pages_are_not_replaced(
    before: TransactionsView,
    completed: CompletedView,
    page: Page,
    encoded: Seq<u8>,
    path: Seq<char>,
    now: u64,
)
    requires
        completed.key == page.key(),
        page.sequence >= completed.pages.len() || completed.pages[page.sequence as int] != (PageReceipt {
            digest: blake3_hash(encoded),
            done: page.done,
        }),
    ensures
        ({
            let state = TransactionsView { completed: before.completed.push(completed), ..before };
            let answered = paged(state, page, encoded, path, now);
            answered.state == state && answered.result == Err::<PageActionView, TransactionError>(
                if page.sequence >= completed.pages.len() {
                    TransactionError::UnexpectedReplay
                } else {
                    TransactionError::CommittedReplayDiffers
                },
            )
        }),
{
    let all = before.completed.push(completed);
    assert(all.last() == completed);
    assert(all[all.len() - 1] == completed);
}

// ---------------------------------------------------------------------------
// Spools

/// A page in a spool: its length and its bytes.
pub open spec fn frame(page: Seq<u8>) -> Seq<u8> {
    le_bytes(page.len(), 4) + page
}

/// Pages in a spool.
pub open spec fn frames(pages: Seq<Seq<u8>>) -> Seq<u8>
    decreases pages.len(),
{
    if pages.len() == 0 {
        Seq::empty()
    } else {
        frame(pages[0]) + frames(pages.skip(1))
    }
}

/// The number that little-endian bytes spell.
pub open spec fn le_number(bytes: Seq<u8>) -> nat
    decreases bytes.len(),
{
    if bytes.len() == 0 {
        0
    } else {
        bytes[0] as nat + 256 * le_number(bytes.skip(1))
    }
}

/// The pages of a spool, or why it cannot be read.
pub open spec fn unframed(bytes: Seq<u8>) -> Result<Seq<Seq<u8>>, TransactionError>
    decreases bytes.len(),
{
    if bytes.len() == 0 {
        Ok(Seq::empty())
    } else if bytes.len() < 4 {
        Err(TransactionError::Truncated)
    } else {
        let length = le_number(bytes.take(4));
        if length > MAX_PAGE_BYTES {
            Err(TransactionError::OversizedPage)
        } else if bytes.len() < 4 + length {
            Err(TransactionError::Truncated)
        } else {
            match unframed(bytes.skip(4 + length as int)) {
                Ok(rest) => Ok(seq![bytes.subrange(4, 4 + length as int)] + rest),
                Err(error) => Err(error),
            }
        }
    }
}

/// A page as it stands in a spool.
pub fn page_frame(encoded: &[u8]) -> (bytes: Vec<u8>)
    requires
        encoded@.len() <= MAX_PAGE_BYTES,
    ensures
        bytes@ == frame(encoded@),
{
    let mut bytes: Vec<u8> = Vec::new();
    push_le(&mut bytes, encoded.len() as u64, 4);
    push_bytes(&mut bytes, encoded);
    proof {
        assert(bytes@ =~= frame(encoded@));
    }
    bytes
}

proof fn lemma_le_number(bytes: Seq<u8>)
    requires
        bytes.len() == 4,
    ensures
        le_number(bytes) == bytes[0] as nat + 256 * (bytes[1] as nat + 256 * (bytes[2] as nat + 256 * (bytes[3] as nat))),
{
    reveal_with_fuel(le_number, 5);
    assert(bytes.skip(1).skip(1) =~= bytes.skip(2));
    assert(bytes.skip(2).skip(1) =~= bytes.skip(3));
    assert(bytes.skip(3).skip(1) =~= Seq::empty());
}

fn slice_bytes(bytes: &[u8], from: usize, to: usize) -> (part: Vec<u8>)
    requires
        from <= to <= bytes@.len(),
    ensures
        part@ == bytes@.subrange(from as int, to as int),
{
    let mut part: Vec<u8> = Vec::new();
    let mut at: usize = from;
    while at < to
        invariant
            from <= at <= to <= bytes@.len(),
            part@ == bytes@.subrange(from as int, at as int),
        decreases to - at,
    {
        part.push(bytes[at]);
        proof {
            assert(bytes@.subrange(from as int, at + 1) =~= bytes@.subrange(from as int, at as int).push(
                bytes@[at as int],
            ));
        }
        at = at + 1;
    }
    part
}

/// Lists of bytes.
pub open spec fn byte_lists(list: Seq<Vec<u8>>) -> Seq<Seq<u8>> {
    list.map_values(|bytes: Vec<u8>| bytes@)
}

/// Reads the pages of a spool.
pub fn spool_pages(bytes: &[u8]) -> (pages: Result<Vec<Vec<u8>>, TransactionError>)
    ensures
        match unframed(bytes@) {
            Ok(expected) => pages matches Ok(found) && byte_lists(found@) == expected,
            Err(error) => pages matches Err(found) && found == error,
        },
{
    let mut pages: Vec<Vec<u8>> = Vec::new();
    let total: usize = bytes.len();
    let mut at: usize = 0;
    proof {
        assert(bytes@.skip(0) =~= bytes@);
        assert(byte_lists(pages@) =~= Seq::empty());
    }
    while at < total
        invariant
            at <= total,
            total == bytes@.len(),
            match unframed(bytes@.skip(at as int)) {
                Ok(rest) => unframed(bytes@) == Ok::<Seq<Seq<u8>>, TransactionError>(byte_lists(pages@) + rest),
                Err(error) => unframed(bytes@) == Err::<Seq<Seq<u8>>, TransactionError>(error),
            },
        decreases total - at,
    {
        let ghost here = bytes@.skip(at as int);
        let ghost before = byte_lists(pages@);
        if total - at < 4 {
            return Err(TransactionError::Truncated);
        }
        let length: u64 = bytes[at] as u64 + 256 * (bytes[at + 1] as u64 + 256 * (bytes[at + 2] as u64 + 256 * (bytes[at
            + 3] as u64)));
        proof {
            lemma_le_number(here.take(4));
        }
        if length > MAX_PAGE_BYTES as u64 {
            return Err(TransactionError::OversizedPage);
        }
        let length: usize = length as usize;
        if total - at - 4 < length {
            return Err(TransactionError::Truncated);
        }
        let page: Vec<u8> = slice_bytes(bytes, at + 4, at + 4 + length);
        proof {
            assert(here.subrange(4, 4 + length as int) =~= page@);
            assert(here.skip(4 + length as int) =~= bytes@.skip(at + 4 + length));
        }
        let ghost content = page@;
        pages.push(page);
        proof {
            assert(byte_lists(pages@) =~= before.push(content));
            if let Ok(rest) = unframed(bytes@.skip(at + 4 + length)) {
                assert(before + (seq![content] + rest) =~= before.push(content) + rest);
            }
        }
        at = at + 4 + length;
    }
    proof {
        assert(bytes@.skip(at as int) =~= Seq::empty());
        assert(byte_lists(pages@) + Seq::<Seq<u8>>::empty() =~= byte_lists(pages@));
    }
    Ok(pages)
}

proof fn lemma_le_round_trip(number: nat)
    requires
        number < 0x1_0000_0000,
    ensures
        le_bytes(number, 4).len() == 4,
        le_number(le_bytes(number, 4)) == number,
{
    reveal_with_fuel(le_bytes, 5);
    let bytes = le_bytes(number, 4);
    assert(bytes =~= seq![
        (number % 256) as u8,
        ((number / 256) % 256) as u8,
        ((number / 256 / 256) % 256) as u8,
        ((number / 256 / 256 / 256) % 256) as u8,
    ]);
    lemma_le_number(bytes);
}

/// What is read from a spool is what was written to it: the pages in order.
pub proof fn law_spools_give_back_their_pages(pages: Seq<Seq<u8>>)
    requires
        forall|k: int| 0 <= k < pages.len() ==> (#[trigger] pages[k]).len() <= MAX_PAGE_BYTES,
    ensures
        unframed(frames(pages)) == Ok::<Seq<Seq<u8>>, TransactionError>(pages),
    decreases pages.len(),
{
    if pages.len() == 0 {
        assert(pages =~= Seq::empty());
    } else {
        let page = pages[0];
        let rest = pages.skip(1);
        assert forall|k: int| 0 <= k < rest.len() implies (#[trigger] rest[k]).len() <= MAX_PAGE_BYTES by {
            assert(pages[k + 1].len() <= MAX_PAGE_BYTES);
        }
        law_spools_give_back_their_pages(rest);
        lemma_le_round_trip(page.len());
        let bytes = frames(pages);
        assert(bytes =~= le_bytes(page.len(), 4) + page + frames(rest));
        assert(bytes.take(4) =~= le_bytes(page.len(), 4));
        assert(bytes.subrange(4, 4 + page.len() as int) =~= page);
        assert(bytes.skip(4 + page.len() as int) =~= frames(rest));
        assert(seq![page] + rest =~= pages);
    }
}

} // verus!
