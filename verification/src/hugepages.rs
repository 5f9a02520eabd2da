//! Reserving huge pages with the kernel.
//!
//! The kernel holds the number of reserved pages in a file. The protocol
//! decides what is to be done with that file; a caller carries it out and
//! hands back what it read.

use vstd::prelude::*;

use crate::text::{chars_of, parse_number, render_number, trim};

verus! {

/// How long the kernel is given to take back a former reservation.
pub const SETTLE_MILLIS: u64 = 500;

/// Where a reservation stands: what is to be done next, or how it ended.
#[derive(Debug, Clone, Copy, PartialEq, Eq, Structural)]
pub enum Stage {
    /// A reservation that a crashed run left behind is given back.
    Clearing,
    /// The kernel is given time.
    Settling,
    /// The pages that are reserved all the same are counted.
    Inspecting,
    /// The pages are asked for.
    Requesting,
    /// The pages that were granted are counted.
    Confirming,
    /// Enough pages are reserved.
    Reserved,
    /// Only so many pages are reserved.
    Short(usize),
}

/// What a caller does with the kernel's file.
#[derive(Debug)]
pub enum Action {
    /// Write the text to the file; it does not matter whether that works.
    Write(String),
    /// Wait for so many milliseconds.
    Pause(u64),
    /// Read the file; one that cannot be read counts as empty.
    Read,
    /// Nothing: enough pages are reserved.
    Finish,
    /// Tell that fewer pages than requested were granted.
    Warn { requested: usize, granted: usize },
}

/// A reservation under way.
#[derive(Debug, Clone, Copy)]
pub struct Reservation {
    pub count: usize,
    pub stage: Stage,
}

/// The number of pages that the text of the kernel's file gives; zero where
/// it gives none.
pub open spec fn page_count(content: Seq<char>) -> usize {
    match crate::text::number(crate::text::trimmed(content)) {
        Some(count) => count,
        None => 0,
    }
}

/// The stage that follows `stage`, where `content` is what was read.
pub open spec fn next_stage(stage: Stage, count: usize, content: Seq<char>) -> Stage {
    match stage {
        Stage::Clearing => Stage::Settling,
        Stage::Settling => Stage::Inspecting,
        Stage::Inspecting => if page_count(content) >= count {
            Stage::Reserved
        } else {
            Stage::Requesting
        },
        Stage::Requesting => Stage::Confirming,
        Stage::Confirming => if page_count(content) >= count {
            Stage::Reserved
        } else {
            Stage::Short(page_count(content))
        },
        Stage::Reserved => stage,
        Stage::Short(_) => stage,
    }
}

/// `action` is what `stage` asks for.
pub open spec fn is_action(stage: Stage, count: usize, action: Action) -> bool {
    match stage {
        Stage::Clearing => action matches Action::Write(text) && text@ == crate::text::decimal(0),
        Stage::Settling => action == Action::Pause(SETTLE_MILLIS),
        Stage::Inspecting => action == Action::Read,
        Stage::Requesting => action matches Action::Write(text) && text@ == crate::text::decimal(
            count as nat,
        ),
        Stage::Confirming => action == Action::Read,
        Stage::Reserved => action == Action::Finish,
        Stage::Short(granted) => action == (Action::Warn { requested: count, granted }),
    }
}

/// Reads the number of pages in the text of the kernel's file.
pub fn parse_page_count(content: &str) -> (count: usize)
    ensures
        count == page_count(content@),
{
    match parse_number(&trim(&chars_of(content))) {
        Some(count) => count,
        None => 0,
    }
}

impl Reservation {
    /// Begins to reserve `count` pages.
    pub fn begin(count: usize) -> (reservation: Self)
        ensures
            reservation.count == count,
            reservation.stage == Stage::Clearing,
    {
        Reservation { count, stage: Stage::Clearing }
    }

    /// What is to be done next.
    pub fn action(&self) -> (action: Action)
        ensures
            is_action(self.stage, self.count, action),
    {
        match self.stage {
            Stage::Clearing => Action::Write(render_number(0)),
            Stage::Settling => Action::Pause(SETTLE_MILLIS),
            Stage::Inspecting => Action::Read,
            Stage::Requesting => Action::Write(render_number(self.count)),
            Stage::Confirming => Action::Read,
            Stage::Reserved => Action::Finish,
            Stage::Short(granted) => Action::Warn { requested: self.count, granted },
        }
    }

    /// Notes that the action was carried out; `content` is what a read gave.
    pub fn advance(&mut self, content: &str)
        ensures
            final(self).count == old(self).count,
            final(self).stage == next_stage(old(self).stage, old(self).count, content@),
    {
        self.stage = match self.stage {
            Stage::Clearing => Stage::Settling,
            Stage::Settling => Stage::Inspecting,
            Stage::Inspecting => if parse_page_count(content) >= self.count {
                Stage::Reserved
            } else {
                Stage::Requesting
            },
            Stage::Requesting => Stage::Confirming,
            Stage::Confirming => {
                let granted: usize = parse_page_count(content);
                if granted >= self.count {
                    Stage::Reserved
                } else {
                    Stage::Short(granted)
                }
            },
            Stage::Reserved => Stage::Reserved,
            Stage::Short(granted) => Stage::Short(granted),
        };
    }
}

/// The stage after the actions whose results are `contents`.
pub open spec fn stage_after(count: usize, contents: Seq<Seq<char>>) -> Stage
    decreases contents.len(),
{
    if contents.len() == 0 {
        Stage::Clearing
    } else {
        next_stage(stage_after(count, contents.drop_last()), count, contents.last())
    }
}

/// A reservation runs its course in five actions, whatever is read: it clears,
/// waits and reads; it is done where enough pages are there, and otherwise
/// requests them, reads once more, and ends with what was granted.
pub proof fn reservation_runs(count: usize, contents: Seq<Seq<char>>)
    requires
        contents.len() == 5,
    ensures
        stage_after(count, contents.take(1)) == Stage::Settling,
        stage_after(count, contents.take(2)) == Stage::Inspecting,
        stage_after(count, contents) == if page_count(contents[2]) >= count {
            Stage::Reserved
        } else if page_count(contents[4]) >= count {
            Stage::Reserved
        } else {
            Stage::Short(page_count(contents[4]))
        },
        stage_after(count, contents.take(3)) == Stage::Requesting <==> page_count(contents[2])
            < count,
        stage_after(count, contents.take(3)) == Stage::Reserved <==> page_count(contents[2])
            >= count,
        page_count(contents[2]) < count ==> stage_after(count, contents.take(4))
            == Stage::Confirming,
{
    assert(stage_after(count, contents.take(0)) == Stage::Clearing);
    assert(contents.take(1).drop_last() =~= contents.take(0));
    assert(stage_after(count, contents.take(1)) == Stage::Settling);
    assert(contents.take(2).drop_last() =~= contents.take(1));
    assert(stage_after(count, contents.take(2)) == Stage::Inspecting);
    assert(contents.take(3).drop_last() =~= contents.take(2));
    assert(contents.take(4).drop_last() =~= contents.take(3));
    let third = stage_after(count, contents.take(3));
    assert(third == next_stage(Stage::Inspecting, count, contents[2]));
    assert(stage_after(count, contents.take(4)) == next_stage(third, count, contents[3]));
    assert(contents.drop_last() =~= contents.take(4));
}

/// Reading back the number that was written, with the line feed that the
/// kernel adds, gives that number; so a request that was granted in full ends
/// the reservation.
pub proof fn granted_request_reserves(count: usize)
    ensures
        page_count(crate::text::decimal(count as nat).push('\n')) == count,
        next_stage(
            Stage::Confirming,
            count,
            crate::text::decimal(count as nat).push('\n'),
        ) == Stage::Reserved,
{
    crate::text::number_of_decimal(count);
    crate::text::trimmed_decimal(count as nat);
}

/// The kernel's number is read whatever whitespace stands around it; what is no
/// number counts as no page.
pub proof fn page_count_exact(front: Seq<char>, text: Seq<char>, back: Seq<char>)
    requires
        crate::text::blank(front),
        crate::text::blank(back),
        text.len() > 0 ==> !crate::text::is_whitespace(text[0]) && !crate::text::is_whitespace(
            text.last(),
        ),
    ensures
        page_count(front + text + back) == match crate::text::number(text) {
            Some(count) => count,
            None => 0,
        },
{
    crate::text::trim_exact(front, text, back);
}

/// Only what is counted decides, and only where it is counted: pages are asked
/// for exactly if the first count falls short, and a reservation ends short
/// exactly if the second does, with the number counted then. A reservation
/// that has ended stays as it is.
pub proof fn stages_exact(count: usize, content: Seq<char>, granted: usize)
    ensures
        next_stage(Stage::Clearing, count, content) == Stage::Settling,
        next_stage(Stage::Settling, count, content) == Stage::Inspecting,
        next_stage(Stage::Inspecting, count, content) == Stage::Requesting <==> page_count(content)
            < count,
        next_stage(Stage::Inspecting, count, content) == Stage::Reserved <==> page_count(content)
            >= count,
        next_stage(Stage::Requesting, count, content) == Stage::Confirming,
        next_stage(Stage::Confirming, count, content) == Stage::Short(granted) <==> granted
            == page_count(content) && granted < count,
        next_stage(Stage::Confirming, count, content) == Stage::Reserved <==> page_count(content)
            >= count,
        next_stage(Stage::Reserved, count, content) == Stage::Reserved,
        next_stage(Stage::Short(granted), count, content) == Stage::Short(granted),
{
}

/// What is done at each stage: zero is written to clear, the number wanted is
/// written to request, half a second is waited in between, and the file is read
/// to count. A shortfall is told with both numbers.
pub proof fn actions_exact(stage: Stage, count: usize, action: Action)
    requires
        is_action(stage, count, action),
    ensures
        action is Write <==> stage is Clearing || stage is Requesting,
        stage is Clearing ==> crate::text::number(action->Write_0@) == Some(0usize)
            && action->Write_0@.len() == 1,
        stage is Requesting ==> crate::text::number(action->Write_0@) == Some(count)
            && action->Write_0@[0] != '+' && (action->Write_0@[0] == '0' ==> count == 0),
        action is Pause <==> stage is Settling,
        action is Pause ==> action->Pause_0 == 500,
        action is Read <==> stage is Inspecting || stage is Confirming,
        action is Finish <==> stage is Reserved,
        action is Warn <==> stage is Short,
        stage is Short ==> action->requested == count && action->granted == stage->Short_0,
{
    crate::text::decimal_exact(0);
    crate::text::decimal_exact(count);
}

} // verus!
