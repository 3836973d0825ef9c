//! The position logic of the discrete backtest: how the held position
//! answers a buy (+1), sell (-1) or hold (0) signal.
use vstd::prelude::*;

verus! {

/// What the backtest does with a signal, given the position it holds.
#[derive(Debug, Clone, Copy, PartialEq, Eq)]
pub enum TradeAction {
    /// Flat and a buy signal: open a long position.
    OpenLong,
    /// Flat and a sell signal: open a short position.
    OpenShort,
    /// Long and a sell signal: close the long trade and open a short one.
    LongToShort,
    /// Short and a buy signal: close the short trade and open a long one.
    ShortToLong,
    /// Long and a hold or buy signal: mark the long position to market.
    MarkLong,
    /// Short and a hold or sell signal: mark the short position to market.
    MarkShort,
    /// Nothing to do (flat without a buy or sell signal, or an unknown
    /// position or signal).
    Idle,
}

/// The action for a position (0 flat, 1 long, -1 short) and a signal
/// (1 buy, -1 sell, 0 hold).
pub open spec fn action_for(position: i32, signal: i32) -> TradeAction {
    if position == 0 && signal == 1 {
        TradeAction::OpenLong
    } else if position == 0 && signal == -1 {
        TradeAction::OpenShort
    } else if position == 1 && signal == -1 {
        TradeAction::LongToShort
    } else if position == -1 && signal == 1 {
        TradeAction::ShortToLong
    } else if position == 1 && (signal == 0 || signal == 1) {
        TradeAction::MarkLong
    } else if position == -1 && (signal == 0 || signal == -1) {
        TradeAction::MarkShort
    } else {
        TradeAction::Idle
    }
}

/// The position held after an action taken from `position`.
pub open spec fn position_after(position: i32, action: TradeAction) -> i32 {
    match action {
        TradeAction::OpenLong | TradeAction::ShortToLong => 1i32,
        TradeAction::OpenShort | TradeAction::LongToShort => -1i32,
        _ => position,
    }
}

/// The number of trades an action adds to the count: one for an opening,
/// two for a reversal (a close and an opening), none otherwise.
pub open spec fn trades_of(action: TradeAction) -> int {
    match action {
        TradeAction::OpenLong | TradeAction::OpenShort => 1,
        TradeAction::LongToShort | TradeAction::ShortToLong => 2,
        _ => 0,
    }
}

/// Decides what to do with `signal` while holding `position`; returns the
/// action and the position held afterwards.
pub fn discrete_step(position: i32, signal: i32) -> (step: (TradeAction, i32))
    ensures
        step.0 == action_for(position, signal),
        step.1 == position_after(position, step.0),
{
    let action = if position == 0 && signal == 1 {
        TradeAction::OpenLong
    } else if position == 0 && signal == -1 {
        TradeAction::OpenShort
    } else if position == 1 && signal == -1 {
        TradeAction::LongToShort
    } else if position == -1 && signal == 1 {
        TradeAction::ShortToLong
    } else if position == 1 && (signal == 0 || signal == 1) {
        TradeAction::MarkLong
    } else if position == -1 && (signal == 0 || signal == -1) {
        TradeAction::MarkShort
    } else {
        TradeAction::Idle
    };
    let next: i32 = match action {
        TradeAction::OpenLong | TradeAction::ShortToLong => 1,
        TradeAction::OpenShort | TradeAction::LongToShort => -1,
        _ => position,
    };
    (action, next)
}

/// The number of trades an action adds to the count.
pub fn trade_count(action: TradeAction) -> (n: u32)
    ensures
        n == trades_of(action),
{
    match action {
        TradeAction::OpenLong | TradeAction::OpenShort => 1,
        TradeAction::LongToShort | TradeAction::ShortToLong => 2,
        _ => 0,
    }
}

/// Law: starting flat, the backtest only ever holds a flat (0), long (1) or
/// short (-1) position, and a position changes only through an opening or a
/// reversal, which follow the signal.
pub proof fn lemma_positions_stay_valid(position: i32, signal: i32)
    requires
        position == 0 || position == 1 || position == -1,
    ensures
        position_after(position, action_for(position, signal)) == 0 || position_after(
            position,
            action_for(position, signal),
        ) == 1 || position_after(position, action_for(position, signal)) == -1,
        position_after(position, action_for(position, signal)) != position ==> position_after(
            position,
            action_for(position, signal),
        ) == signal && trades_of(action_for(position, signal)) > 0,
        signal == 0 ==> position_after(position, action_for(position, signal)) == position,
{
}

/// Law: the trades an answer to a signal adds are the positions it closes
/// plus the positions it opens: a reversal (long to short or short to long)
/// closes one trade and opens another, so it adds two whichever way it goes;
/// an opening from flat adds one; marking a position or idling adds none.
pub proof fn lemma_trades_close_plus_open(position: i32, signal: i32)
    requires
        position == 0 || position == 1 || position == -1,
    ensures
        ({
            let action = action_for(position, signal);
            let next = position_after(position, action);
            let closed: int = if position != 0 && next != position { 1 } else { 0 };
            let opened: int = if next != 0 && next != position { 1 } else { 0 };
            trades_of(action) == closed + opened
        }),
        (position == 1 && signal == -1) || (position == -1 && signal == 1) ==> trades_of(
            action_for(position, signal),
        ) == 2,
        position == 0 && (signal == 1 || signal == -1) ==> trades_of(action_for(position, signal))
            == 1,
        trades_of(TradeAction::LongToShort) == 2,
        trades_of(TradeAction::ShortToLong) == 2,
        trades_of(TradeAction::OpenLong) == 1,
        trades_of(TradeAction::OpenShort) == 1,
{
}

/// Law: a held position that the signal does not reverse is marked to
/// market (long as long, short as short), a flat position without a buy or
/// sell signal stays idle, and a buy or sell signal from flat opens a trade in
/// its own direction.
pub proof fn lemma_unreversed_positions_are_marked(position: i32, signal: i32)
    requires
        position == 0 || position == 1 || position == -1,
        signal == 0 || signal == 1 || signal == -1,
    ensures
        position == 1 && signal != -1 ==> action_for(position, signal) == TradeAction::MarkLong,
        position == -1 && signal != 1 ==> action_for(position, signal) == TradeAction::MarkShort,
        position == 0 && signal == 0 ==> action_for(position, signal) == TradeAction::Idle,
        position == 0 && signal == 1 ==> action_for(position, signal) == TradeAction::OpenLong,
        position == 0 && signal == -1 ==> action_for(position, signal) == TradeAction::OpenShort,
        position == 1 && signal == -1 ==> action_for(position, signal) == TradeAction::LongToShort,
        position == -1 && signal == 1 ==> action_for(position, signal) == TradeAction::ShortToLong,
{
}

} // verus!
