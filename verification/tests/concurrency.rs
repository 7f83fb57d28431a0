use chat_lib::client::{messages_request, post_request, read_messages};
use chat_lib::handle_connection;
use chat_lib::messages::MessageStore;
use std::sync::Arc;
use tokio::sync::Mutex;

#[test]
fn concurrent_posts_are_neither_lost_nor_stored_twice() {
    let runtime = tokio::runtime::Builder::new_multi_thread()
        .worker_threads(4)
        .build()
        .unwrap();
    let store = Arc::new(Mutex::new(MessageStore::new()));
    let connections = 8;
    let posts = 25;
    let accepted = runtime.block_on(async {
        let mut tasks = Vec::new();
        for c in 0..connections {
            let store = Arc::clone(&store);
            tasks.push(tokio::spawn(async move {
                let mut accepted = 0;
                for p in 0..posts {
                    let text = if p % 5 == 4 {
                        format!("broken \" {} {}", c, p)
                    } else {
                        format!("{} {}", c, p)
                    };
                    let input = post_request(&format!("user{}", c), &text).to_string();
                    let answer = {
                        let mut store = store.lock().await;
                        handle_connection(input.as_bytes(), &mut store)
                    };
                    if let Ok(answer) = answer {
                        if answer.starts_with("HTTP/1.1 200 OK\r\n") {
                            accepted += 1;
                        }
                    }
                    tokio::task::yield_now().await;
                }
                accepted
            }));
        }
        let mut accepted = 0;
        for task in tasks {
            accepted += task.await.unwrap();
        }
        accepted
    });
    assert_eq!(accepted, connections * posts * 4 / 5);
    let mut store = runtime.block_on(async { store.lock_owned().await });
    assert_eq!(store.len(), accepted);
    let listing = handle_connection(messages_request().to_string().as_bytes(), &mut store).unwrap();
    let messages = read_messages(listing.as_bytes()).unwrap();
    assert_eq!(messages.len(), accepted);
    for c in 0..connections {
        let of_connection: Vec<&str> = messages
            .iter()
            .filter(|m| m.user == format!("user{}", c))
            .map(|m| m.message.as_str())
            .collect();
        let expected: Vec<String> =
            (0..posts).filter(|p| p % 5 != 4).map(|p| format!("{} {}", c, p)).collect();
        assert_eq!(of_connection, expected);
    }
}
