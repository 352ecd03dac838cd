use joader::dataset::data_id;
use joader::proto::common::{Code, Status};
use joader::proto::job::{expr, Condition, Expr};
use joader::service::common::{parse_u32, CondError, IdGenerator};
use joader::service::id_table::{IdTable, ServiceError};
use joader::Role;

#[test]
fn test_complie() {
    let cond = Condition {
        exprs: vec![
            Expr {
                op: expr::Operation::Geq as i32,
                rhs: "0".to_string(),
            },
            Expr {
                op: expr::Operation::Lt as i32,
                rhs: "16".to_string(),
            },
        ],
    };
    let vec = (0..128u32).map(|x| x.to_string()).collect::<Vec<_>>();
    let target = (0..16u32).map(|x| x.to_string()).collect::<Vec<_>>();
    let res = vec
        .iter()
        .cloned()
        .filter(|s| cond.eval(s.as_str()) == Ok(true))
        .collect::<Vec<_>>();
    assert_eq!(res, target);
}

fn one(op: expr::Operation, rhs: &str) -> Condition {
    Condition {
        exprs: vec![Expr {
            op: op as i32,
            rhs: rhs.to_string(),
        }],
    }
}

#[test]
fn each_operation() {
    assert_eq!(one(expr::Operation::Lt, "5").eval("4"), Ok(true));
    assert_eq!(one(expr::Operation::Lt, "5").eval("5"), Ok(false));
    assert_eq!(one(expr::Operation::Leq, "5").eval("5"), Ok(true));
    assert_eq!(one(expr::Operation::Leq, "5").eval("6"), Ok(false));
    assert_eq!(one(expr::Operation::Gt, "5").eval("6"), Ok(true));
    assert_eq!(one(expr::Operation::Gt, "5").eval("5"), Ok(false));
    assert_eq!(one(expr::Operation::Geq, "5").eval("5"), Ok(true));
    assert_eq!(one(expr::Operation::Geq, "5").eval("4"), Ok(false));
    assert_eq!(one(expr::Operation::Eq, "5").eval("5"), Ok(true));
    assert_eq!(one(expr::Operation::Eq, "5").eval("50"), Ok(false));
}

#[test]
fn an_empty_condition_holds() {
    let cond = Condition { exprs: vec![] };
    assert_eq!(cond.eval("3"), Ok(true));
}

#[test]
fn keys_that_are_no_numbers_are_rejected() {
    let cond = one(expr::Operation::Lt, "5");
    assert_eq!(cond.eval("abc"), Err(CondError::NotNumeric));
    assert_eq!(cond.eval(""), Err(CondError::NotNumeric));
    assert_eq!(cond.eval("-1"), Err(CondError::NotNumeric));
    assert_eq!(cond.eval("4294967296"), Err(CondError::NotNumeric));
    assert_eq!(one(expr::Operation::Lt, "x").eval("1"), Err(CondError::NotNumeric));
    let unknown = Condition {
        exprs: vec![Expr {
            op: 9,
            rhs: "5".to_string(),
        }],
    };
    assert_eq!(unknown.eval("1"), Err(CondError::UnknownOp));
}

#[test]
fn numbers_parse_as_the_standard_library_parses_them() {
    for text in ["0", "7", "+7", "007", "4294967295", "4294967296", "", "+", "-", "1a", " 1", "99999999999999999999"] {
        assert_eq!(parse_u32(text.as_bytes()), text.parse::<u32>().ok(), "{:?}", text);
    }
}

#[test]
fn identifiers_count_up_from_one() {
    let mut ids = IdGenerator::new();
    assert_eq!(ids.get_dataset_id(), 1);
    assert_eq!(ids.get_dataset_id(), 2);
    assert_eq!(ids.get_job_id(), 1);
    assert_eq!(ids.get_dataset_id(), 3);
    assert_eq!(ids.get_job_id(), 2);
}

#[test]
fn data_id_joins_dataset_and_index() {
    assert_eq!(data_id(0, 0), 0);
    assert_eq!(data_id(0, 7), 7);
    assert_eq!(data_id(1, 0), 1 << 32);
    assert_eq!(data_id(3, 5), (3u64 << 32) | 5);
    assert_eq!(data_id(u32::MAX, u32::MAX), u64::MAX);
}

#[test]
fn plain_values() {
    assert_ne!(Role::Leader, Role::Follower);
    assert_ne!(Code::Success, Code::Failure);
    let status = Status {
        code: Code::Failure as i32,
        msg: "not found".to_string(),
    };
    assert_eq!(status.code, 1);
    assert_eq!(status.clone(), status);
}

#[test]
fn names_are_given_once() {
    let mut table = IdTable::new();
    assert_eq!(table.get(&"a".to_string()), Err(ServiceError::NotFound));
    assert_eq!(table.insert("a".to_string(), 1), Ok(()));
    assert_eq!(table.insert("b".to_string(), 2), Ok(()));
    assert_eq!(table.insert("a".to_string(), 3), Err(ServiceError::AlreadyExists));
    assert_eq!(table.get(&"a".to_string()), Ok(1));
    assert_eq!(table.get(&"b".to_string()), Ok(2));
    assert_eq!(table.remove(&"a".to_string()), Ok(1));
    assert_eq!(table.remove(&"a".to_string()), Err(ServiceError::NotFound));
    assert_eq!(table.get(&"a".to_string()), Err(ServiceError::NotFound));
    assert_eq!(table.insert("a".to_string(), 3), Ok(()));
    assert_eq!(table.get(&"a".to_string()), Ok(3));
    assert_ne!(ServiceError::Drained, ServiceError::NotFound);
}
