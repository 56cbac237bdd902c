use std::sync::Arc;

use tokio::sync::Mutex;

use question_base::Question;
use question_base::QuestionBase;
use question_base::QuestionId;

#[test]
fn concurrent_distinct_inserts_all_land() {
    let runtime = tokio::runtime::Builder::new_multi_thread()
        .worker_threads(4)
        .build()
        .unwrap();
    runtime.block_on(async {
        let store = Arc::new(Mutex::new(QuestionBase::new()));
        let callers: usize = 16;
        let mut handles = Vec::new();
        for n in 0..callers {
            let store = Arc::clone(&store);
            handles.push(tokio::spawn(async move {
                let key = format!("caller-{}", n);
                let title = format!("title-{}", n);
                let q = Question::new(QuestionId::parse(&key).unwrap(), &title, "c", None);
                let mut guard = store.lock().await;
                guard.insert(q);
            }));
        }
        for handle in handles {
            handle.await.unwrap();
        }
        let guard = store.lock().await;
        assert_eq!(guard.len(), callers);
        for n in 0..callers {
            let key = format!("caller-{}", n);
            let got = guard.get_by_id(&QuestionId::parse(&key).unwrap()).unwrap();
            assert_eq!(got.title, format!("title-{}", n));
        }
    });
}
