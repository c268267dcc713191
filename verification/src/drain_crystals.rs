//! The crystals the player loses as its turns add up, with the warnings it
//! gets along the way.

use crate::data::{MessageColor, MessageDisplayLength, Player};
use crate::level::{player_index, Level, LevelRecord};
use vstd::prelude::*;

verus! {

broadcast use vstd::string::group_string_axioms;

/// Crystals drained on a turn counted with `turns_taken`: none before 500,
/// 2 before 600, 5 before 700, and 10 after that.
pub open spec fn crystals_drained(turns_taken: u32) -> u32 {
    if turns_taken < 500 {
        0
    } else if turns_taken < 600 {
        2
    } else if turns_taken < 700 {
        5
    } else {
        10
    }
}

/// The warning given at a turn count, with its colour: at 500, 600 and
/// 700.
pub open spec fn warning(turns_taken: u32) -> Option<(Seq<char>, MessageColor)> {
    if turns_taken == 500 {
        Some(
            (
                "You feel a sense of... unease. Perhaps you should consider leaving soon..."@,
                MessageColor::White,
            ),
        )
    } else if turns_taken == 600 {
        Some(
            (
                "The sense of danger grows. Fatigue starts to overcome your body. You must leave before it's too late!"@,
                MessageColor::Orange,
            ),
        )
    } else if turns_taken == 700 {
        Some(("YOUR INSTINCTS SCREAM TO RUN. YOUR BODY GROWS HEAVY WITH DESPAIR."@, MessageColor::Red))
    } else {
        None
    }
}

/// Drains the first player's crystals (see `crystals_drained`; not below
/// zero), after giving the warning of its turn count (see `warning`), shown
/// for long.
pub fn drain_crystals_system(level: &mut Level)
    requires
        old(level).wf(),
        player_index(old(level).records@) is Some,
    ensures
        final(level).wf(),
        ({
            let rs = old(level).records@;
            let i = player_index(rs).unwrap();
            let p = rs[i].player.unwrap();
            let d = crystals_drained(p.turns_taken);
            let n0 = old(level).message_log@.len();
            &&& *final(level) == (Level { records: final(level).records, message_log: final(level).message_log, ..*old(level) })
            &&& final(level).records@ == rs.update(
                i,
                LevelRecord { player: Some(Player { crystals: if p.crystals >= d {
                    (p.crystals - d) as u32
                } else {
                    0
                }, ..p }), ..rs[i] },
            )
            &&& match warning(p.turns_taken) {
                Some((text, color)) => {
                    &&& final(level).message_log@.len() == n0 + 1
                    &&& final(level).message_log@.drop_last() == old(level).message_log@
                    &&& final(level).message_log@.last().text@ == text
                    &&& final(level).message_log@.last().color == color
                    &&& final(level).message_log@.last().display_length == MessageDisplayLength::Long
                    &&& final(level).message_log@.last().time_created == old(level).now_ms
                },
                None => final(level).message_log == old(level).message_log,
            }
        }),
{
    let i = level.find_player().unwrap();
    let r = level.records[i];
    let p = r.player.unwrap();
    let now = level.now_ms;
    let ghost log0 = level.message_log@;
    if p.turns_taken == 500 {
        level.message_log.new_message(
            "You feel a sense of... unease. Perhaps you should consider leaving soon...".to_string(),
            MessageColor::White,
            MessageDisplayLength::Long,
            now,
        );
    } else if p.turns_taken == 600 {
        level.message_log.new_message(
            "The sense of danger grows. Fatigue starts to overcome your body. You must leave before it's too late!".to_string(),
            MessageColor::Orange,
            MessageDisplayLength::Long,
            now,
        );
    } else if p.turns_taken == 700 {
        level.message_log.new_message(
            "YOUR INSTINCTS SCREAM TO RUN. YOUR BODY GROWS HEAVY WITH DESPAIR.".to_string(),
            MessageColor::Red,
            MessageDisplayLength::Long,
            now,
        );
    }
    assert(p.turns_taken == 500 || p.turns_taken == 600 || p.turns_taken == 700 ==> level.message_log@.drop_last()
        =~= log0);
    let drained: u32 = if p.turns_taken < 500 {
        0
    } else if p.turns_taken < 600 {
        2
    } else if p.turns_taken < 700 {
        5
    } else {
        10
    };
    let crystals = if p.crystals >= drained {
        p.crystals - drained
    } else {
        0
    };
    assert(r.position matches Some(q) ==> crate::level::near(q));
    level.set_record(i, LevelRecord { player: Some(Player { crystals, ..p }), ..r });
}

} // verus!
