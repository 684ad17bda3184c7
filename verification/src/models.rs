//! The values that the contract stores and answers with.

use vstd::prelude::*;
use crate::table::DeepCopy;

verus! {

/// A reward's key: the address of the contract that registered it, and the
/// name it gave the reward.
pub type RewardKey = (String, String);

/// A grant's key: the wallet it was granted to, and the reward's key.
pub type GrantKey = (String, RewardKey);

/// A token that a reward pays out: a native coin by its denomination, or a
/// CW20 token contract by its address.
#[derive(Debug, Clone, PartialEq, Eq)]
pub enum Token {
    Native { denom: String },
    Cw20 { address: String },
}

/// What a `Token` is, with its string as a sequence of characters.
pub enum TokenView {
    Native { denom: Seq<char> },
    Cw20 { address: Seq<char> },
}

impl View for Token {
    type V = TokenView;

    open spec fn view(&self) -> TokenView {
        match self {
            Token::Native { denom } => TokenView::Native { denom: denom@ },
            Token::Cw20 { address } => TokenView::Cw20 { address: address@ },
        }
    }
}

/// The string under which totals are kept for a token: its denomination or
/// its contract address.
pub open spec fn token_key(t: TokenView) -> Seq<char> {
    match t {
        TokenView::Native { denom } => denom,
        TokenView::Cw20 { address } => address,
    }
}

impl Token {
    /// The string under which totals are kept for this token.
    pub fn key(&self) -> (r: &String)
        ensures
            r@ == token_key(self@),
    {
        match self {
            Token::Native { denom } => denom,
            Token::Cw20 { address } => address,
        }
    }
}

impl DeepCopy for Token {
    fn deep_copy(&self) -> (r: Token) {
        match self {
            Token::Native { denom } => Token::Native { denom: denom.clone() },
            Token::Cw20 { address } => Token::Cw20 { address: address.clone() },
        }
    }
}

/// An amount of a token.
#[derive(Debug, Clone, PartialEq, Eq)]
pub struct TokenAmount {
    pub token: Token,
    pub amount: u128,
}

pub struct TokenAmountView {
    pub token: TokenView,
    pub amount: u128,
}

impl View for TokenAmount {
    type V = TokenAmountView;

    open spec fn view(&self) -> TokenAmountView {
        TokenAmountView { token: self.token@, amount: self.amount }
    }
}

impl DeepCopy for TokenAmount {
    fn deep_copy(&self) -> (r: TokenAmount) {
        TokenAmount { token: self.token.deep_copy(), amount: self.amount }
    }
}

/// The views of a sequence of token amounts.
pub open spec fn amounts_view(v: Seq<TokenAmount>) -> Seq<TokenAmountView> {
    v.map_values(|t: TokenAmount| t@)
}

/// Copies a list of token amounts.
pub fn copy_amounts(v: &Vec<TokenAmount>) -> (r: Vec<TokenAmount>)
    ensures
        amounts_view(r@) == amounts_view(v@),
{
    let mut r: Vec<TokenAmount> = Vec::new();
    let mut i: usize = 0;
    while i < v.len()
        invariant
            i <= v@.len(),
            r@.len() == i,
            forall|j: int| 0 <= j < i ==> (#[trigger] r@[j])@ == v@[j]@,
        decreases v@.len() - i,
    {
        r.push(v[i].deep_copy());
        i = i + 1;
    }
    assert(amounts_view(r@) =~= amounts_view(v@));
    r
}

/// The view of an optional string.
pub open spec fn opt_str(o: Option<String>) -> Option<Seq<char>> {
    match o {
        Some(s) => Some(s@),
        None => None,
    }
}

/// Copies an optional string.
pub fn copy_opt_str(o: &Option<String>) -> (r: Option<String>)
    ensures
        opt_str(r) == opt_str(*o),
{
    match o {
        Some(s) => Some(s.clone()),
        None => None,
    }
}

/// When a grant stops being claimable: at a block time, in nanoseconds since
/// the epoch, or at a block height.
#[derive(Debug, Clone, Copy, PartialEq, Eq, Structural)]
pub enum Expiration {
    Time(u64),
    Height(u64),
}

/// The block that a message is executed in: its height and its time, in
/// nanoseconds since the epoch.
#[derive(Debug, Clone, Copy, PartialEq, Eq, Structural)]
pub struct BlockInfo {
    pub height: u64,
    pub time: u64,
}

/// A wallet's right to claim a reward, until it expires.
#[derive(Debug, Clone, Copy, PartialEq, Eq, Structural)]
pub struct Grant {
    pub expires_at: Option<Expiration>,
}

impl View for Grant {
    type V = Grant;

    open spec fn view(&self) -> Grant {
        *self
    }
}

impl DeepCopy for Grant {
    fn deep_copy(&self) -> (r: Grant) {
        *self
    }
}

/// Whether an expiration has been reached in `block`: a time or a height at
/// or before the block's.
pub open spec fn expiration_reached(e: Option<Expiration>, block: BlockInfo) -> bool {
    match e {
        None => false,
        Some(Expiration::Time(t)) => t <= block.time,
        Some(Expiration::Height(h)) => h <= block.height,
    }
}

impl Grant {
    pub fn is_expired(&self, current_block: &BlockInfo) -> (r: bool)
        ensures
            r == expiration_reached(self.expires_at, *current_block),
    {
        match &self.expires_at {
            Some(expires_at) => match expires_at {
                Expiration::Time(t) => *t <= current_block.time,
                Expiration::Height(h) => *h <= current_block.height,
            },
            None => false,
        }
    }
}

/// What a contract asks for when it registers a reward under `key`.
#[derive(Debug, Clone, PartialEq, Eq)]
pub struct RewardInitArgs {
    pub key: String,
    pub count: Option<u32>,
    pub message: Option<String>,
    pub expires_at: Option<Expiration>,
    pub tokens: Vec<TokenAmount>,
}

pub struct RewardInitArgsView {
    pub key: Seq<char>,
    pub count: Option<u32>,
    pub message: Option<Seq<char>>,
    pub expires_at: Option<Expiration>,
    pub tokens: Seq<TokenAmountView>,
}

impl View for RewardInitArgs {
    type V = RewardInitArgsView;

    open spec fn view(&self) -> RewardInitArgsView {
        RewardInitArgsView {
            key: self.key@,
            count: self.count,
            message: opt_str(self.message),
            expires_at: self.expires_at,
            tokens: amounts_view(self.tokens@),
        }
    }
}

/// A registered reward.
#[derive(Debug, Clone, PartialEq, Eq)]
pub struct RewardMetadata {
    pub claims_processed: u32,
    pub claims_remaining: Option<u32>,
    pub message: Option<String>,
    pub tokens: Vec<TokenAmount>,
    pub is_paused: bool,
}

pub struct RewardMetadataView {
    pub claims_processed: u32,
    pub claims_remaining: Option<u32>,
    pub message: Option<Seq<char>>,
    pub tokens: Seq<TokenAmountView>,
    pub is_paused: bool,
}

impl View for RewardMetadata {
    type V = RewardMetadataView;

    open spec fn view(&self) -> RewardMetadataView {
        RewardMetadataView {
            claims_processed: self.claims_processed,
            claims_remaining: self.claims_remaining,
            message: opt_str(self.message),
            tokens: amounts_view(self.tokens@),
            is_paused: self.is_paused,
        }
    }
}

impl DeepCopy for RewardMetadata {
    fn deep_copy(&self) -> (r: RewardMetadata) {
        RewardMetadata {
            claims_processed: self.claims_processed,
            claims_remaining: self.claims_remaining,
            message: copy_opt_str(&self.message),
            tokens: copy_amounts(&self.tokens),
            is_paused: self.is_paused,
        }
    }
}

/// One reward in the answer to a query of a contract's rewards.
#[derive(Debug, Clone, PartialEq, Eq)]
pub struct RewardQueryResult {
    pub key: String,
    pub sender: String,
    pub claims_processed: u32,
    pub claims_remaining: Option<u32>,
    pub message: Option<String>,
    pub tokens: Vec<TokenAmount>,
    pub is_paused: bool,
}

/// One reward in the answer to a query of a wallet's grants.
#[derive(Debug, Clone, PartialEq, Eq)]
pub struct GrantQueryResult {
    pub sender: String,
    pub key: String,
    pub claims_processed: u32,
    pub claims_remaining: Option<u32>,
    pub message: Option<String>,
}

/// What a wallet has been granted and has claimed of one token, over time.
#[derive(Debug, Clone, PartialEq, Eq)]
pub struct ClaimTotals {
    pub token: Token,
    pub amount_claimed: u128,
    pub amount_granted: u128,
}

pub struct ClaimTotalsView {
    pub token: TokenView,
    pub amount_claimed: u128,
    pub amount_granted: u128,
}

impl View for ClaimTotals {
    type V = ClaimTotalsView;

    open spec fn view(&self) -> ClaimTotalsView {
        ClaimTotalsView {
            token: self.token@,
            amount_claimed: self.amount_claimed,
            amount_granted: self.amount_granted,
        }
    }
}

impl DeepCopy for ClaimTotals {
    fn deep_copy(&self) -> (r: ClaimTotals) {
        ClaimTotals {
            token: self.token.deep_copy(),
            amount_claimed: self.amount_claimed,
            amount_granted: self.amount_granted,
        }
    }
}

} // verus!
