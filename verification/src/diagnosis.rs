//! What a diagnosis says of what was observed.

use vstd::prelude::*;

use crate::config::config_value;
use crate::doctor::{
    all_checks, config_seen, looked_at, next_command, place_checks, store_address, store_checked,
    the_worst_bounds_every_check, tree_check, worst_of, CheckStatus, DoctorOptions, Observed,
    PlanesSeen, StoreSeen,
};

verus! {

/// The settings cannot be read, or what they say of the project's id is faulty.
pub open spec fn has_faulty_settings(seen: Observed) -> bool {
    match seen.config {
        Err(_) => true,
        Ok(text) => config_value(text.deep_view(), "project_id"@) is Err,
    }
}

/// The plans are there, and cannot be read or are not sound.
pub open spec fn has_faulty_plans(seen: Observed) -> bool {
    match seen.planes {
        PlanesSeen::Absent => false,
        PlanesSeen::Unreadable(_) => true,
        PlanesSeen::Read { planes, items, violations } => violations > 0,
    }
}

/// The store does not open, or has a schema and does not say what it holds.
pub open spec fn has_faulty_store(seen: Observed) -> bool {
    match seen.store {
        StoreSeen::Closed(_) => true,
        StoreSeen::Opened { schema, nodes, edges } => schema is Ok && (nodes is Err || edges is Err),
    }
}

proof fn lemma_place(options: DoctorOptions, seen: Observed)
    ensures
        ({
            let checks = place_checks(options, seen);
            &&& checks.len() == 5
            &&& checks[0].status == CheckStatus::Pass
            &&& checks[1].status == if seen.marked {
                CheckStatus::Pass
            } else {
                CheckStatus::Warn
            }
            &&& checks[2].status == CheckStatus::Pass
            &&& checks[3].status == CheckStatus::Fail <==> has_faulty_settings(seen)
            &&& checks[3].status == CheckStatus::Pass <==> match seen.config {
                Ok(text) => config_value(text.deep_view(), "project_id"@) matches Ok(Some(_)),
                Err(_) => false,
            }
            &&& checks[4].status == CheckStatus::Fail <==> has_faulty_plans(seen)
            &&& checks[4].status == CheckStatus::Warn <==> seen.planes is Absent
        }),
{
}

proof fn lemma_store(options: DoctorOptions, seen: Observed)
    ensures
        ({
            let checks = store_checked(options, seen);
            match store_address(options, config_seen(&seen.config)) {
                Err(_) => checks.len() == 1 && checks[0].status == CheckStatus::Fail,
                Ok(_) => match seen.store {
                    StoreSeen::Closed(_) => checks.len() == 2 && checks[0].status == CheckStatus::Pass && checks[1].status
                        == CheckStatus::Fail,
                    StoreSeen::Opened { schema, nodes, edges } => {
                        &&& checks.len() == 4
                        &&& checks[0].status == CheckStatus::Pass
                        &&& checks[1].status == CheckStatus::Pass
                        &&& checks[2].status == if schema is Ok {
                            CheckStatus::Pass
                        } else {
                            CheckStatus::Warn
                        }
                        &&& checks[3].status == if schema is Err {
                            CheckStatus::Warn
                        } else if nodes is Err || edges is Err {
                            CheckStatus::Fail
                        } else if nodes->Ok_0 == 0 {
                            CheckStatus::Warn
                        } else {
                            CheckStatus::Pass
                        }
                    },
                },
            }
        }),
{
}

/// The checks come in one order: five on the place, those on the store, one on
/// the sources, and what to run next.
pub proof fn every_question_has_its_verdict(options: DoctorOptions, seen: Observed)
    ensures
        ({
            let checks = all_checks(options, seen);
            let n = checks.len() as int;
            &&& 8 <= n <= 11
            &&& checks[1].status == if seen.marked {
                CheckStatus::Pass
            } else {
                CheckStatus::Warn
            }
            &&& checks[3].status == CheckStatus::Fail <==> has_faulty_settings(seen)
            &&& checks[4].status == CheckStatus::Fail <==> has_faulty_plans(seen)
            &&& checks[4].status == CheckStatus::Warn <==> seen.planes is Absent
            &&& checks[5].status == CheckStatus::Fail <==> store_address(options, config_seen(&seen.config)) is Err
            &&& n > 8 ==> (checks[6].status == CheckStatus::Fail <==> seen.store is Closed)
            &&& checks[n - 2].status == if seen.files.len() == 0 {
                CheckStatus::Warn
            } else {
                CheckStatus::Pass
            }
            &&& checks[n - 1].status == CheckStatus::Pass
        }),
{
    let place = place_checks(options, seen);
    let store = store_checked(options, seen);
    let checks = all_checks(options, seen);
    let n = checks.len() as int;
    lemma_place(options, seen);
    lemma_store(options, seen);
    assert(seen.files.deep_view().len() == seen.files@.len());
    assert forall|i: int| 0 <= i < 5 implies checks[i] == #[trigger] place[i] by {}
    assert forall|i: int| 0 <= i < store.len() implies checks[5 + i] == #[trigger] store[i] by {}
    assert(place[1].status == place[1].status && place[3].status == place[3].status && place[4].status == place[4].status);
    assert(checks[5] == store[0]);
    if n > 8 {
        assert(checks[6] == store[1]);
    }
    assert(checks[n - 2] == tree_check(options.root@, seen.files.deep_view(), seen.strategy.deep_view()));
    assert(checks[n - 1] == next_command(looked_at(options, seen), options.root@));
}

/// A project is in bad health exactly if its settings or plans are faulty, or its
/// store cannot be found, opened or asked.
pub proof fn bad_health_has_a_cause(options: DoctorOptions, seen: Observed)
    ensures
        worst_of(all_checks(options, seen)) == CheckStatus::Fail <==> {
            ||| has_faulty_settings(seen)
            ||| has_faulty_plans(seen)
            ||| store_address(options, config_seen(&seen.config)) is Err
            ||| has_faulty_store(seen)
        },
{
    let place = place_checks(options, seen);
    let store = store_checked(options, seen);
    let checks = all_checks(options, seen);
    let n = checks.len() as int;
    lemma_place(options, seen);
    lemma_store(options, seen);
    the_worst_bounds_every_check(checks);
    every_question_has_its_verdict(options, seen);
    assert forall|i: int| 0 <= i < 5 implies checks[i] == #[trigger] place[i] by {}
    assert forall|i: int| 0 <= i < store.len() implies checks[5 + i] == #[trigger] store[i] by {}
    if has_faulty_settings(seen) {
        assert(checks[3] == place[3]);
        assert(checks[3].status == CheckStatus::Fail);
    }
    if has_faulty_plans(seen) {
        assert(checks[4] == place[4]);
        assert(checks[4].status == CheckStatus::Fail);
    }
    if store_address(options, config_seen(&seen.config)) is Err {
        assert(checks[5] == store[0]);
        assert(checks[5].status == CheckStatus::Fail);
    } else if has_faulty_store(seen) {
        if seen.store is Closed {
            assert(checks[6] == store[1]);
            assert(checks[6].status == CheckStatus::Fail);
        } else {
            assert(checks[8] == store[3]);
            assert(checks[8].status == CheckStatus::Fail);
        }
    }
    if worst_of(checks) == CheckStatus::Fail {
        let i = choose|i: int| 0 <= i < checks.len() && (#[trigger] checks[i]).status == CheckStatus::Fail;
        if i < 5 {
            assert(checks[i] == place[i]);
            assert(i == 3 || i == 4);
        } else if i < 5 + store.len() {
            assert(checks[5 + (i - 5)] == store[i - 5]);
        } else {
            assert(i == n - 2 || i == n - 1);
        }
    }
}

} // verus!
