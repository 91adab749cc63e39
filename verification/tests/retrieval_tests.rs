use backend::retrieval::{HistoryError, Message, exchange_cost, select_history};

fn msg(role: &str, content: &str) -> Message {
    Message { role: role.to_string(), content: content.to_string() }
}

#[test]
fn exchange_cost_adds_bytes_and_overhead() {
    let ms = vec![msg("user", "hello"), msg("assistant", "é")];
    assert_eq!(exchange_cost(&ms), Ok(5 + 32 + 2 + 32));
    assert_eq!(exchange_cost(&[]), Ok(0));
}

#[test]
fn selection_prefers_relevant_exchanges() {
    let history = vec![
        msg("user", "tell me about sqlite indexes"),
        msg("assistant", "indexes speed up sqlite queries"),
        msg("user", "what is the weather"),
        msg("assistant", "sunny"),
        msg("user", "and sqlite transactions?"),
    ];
    // Each exchange cost: contents + 32 per message.
    let first = 28 + 32 + 31 + 32;
    let last = 24 + 32;
    // Equal relevance: the most recent exchange is taken first.
    assert_eq!(select_history(&history, "sqlite", "", first).unwrap(), vec![4]);
    assert_eq!(select_history(&history, "sqlite", "", first + last).unwrap(), vec![0, 1, 4]);
    // More shared terms win over recency.
    assert_eq!(select_history(&history, "sqlite indexes", "", first).unwrap(), vec![0, 1]);
}

#[test]
fn selection_falls_back_to_recent_exchanges() {
    let history = vec![
        msg("user", "alpha"),
        msg("assistant", "beta"),
        msg("user", "gamma"),
        msg("assistant", "delta"),
    ];
    let cost_last = 5 + 32 + 5 + 32;
    assert_eq!(select_history(&history, "unrelated", "", cost_last).unwrap(), vec![2, 3]);
    assert_eq!(select_history(&history, "unrelated", "", 1000).unwrap(), vec![0, 1, 2, 3]);
    assert_eq!(select_history(&history, "unrelated", "", 10).unwrap(), Vec::<usize>::new());
}

#[test]
fn selection_skips_messages_before_first_user_message() {
    let history = vec![msg("assistant", "greeting"), msg("user", "question"), msg("assistant", "answer")];
    assert_eq!(select_history(&history, "question", "", 1000).unwrap(), vec![1, 2]);
}

#[test]
fn selection_takes_smaller_exchange_when_larger_does_not_fit() {
    let history = vec![
        msg("user", "sqlite sqlite sqlite long long long long long"),
        msg("user", "tiny"),
    ];
    let small = 4 + 32;
    assert_eq!(select_history(&history, "sqlite", "", small).unwrap(), vec![1]);
}

#[test]
fn history_error_message() {
    assert_eq!(HistoryError::EstimateOverflow.message(), "Estimation de l'historique impossible");
}
