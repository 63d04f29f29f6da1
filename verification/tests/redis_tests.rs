use lucasdb::errors::Errors;
use lucasdb::fio::MemIO;
use lucasdb::options::EngineOptions;
use lucasdb::redis::RedisLucasDb;

fn setup(name: &str) -> (RedisLucasDb<MemIO>, EngineOptions) {
    let mut opts = EngineOptions::default();
    opts.dir_path = format!("./tmp/redis_lucasdb/{}", name);
    let redis = RedisLucasDb::<MemIO>::new(opts.clone()).expect("failed to create database");
    (redis, opts)
}

#[test]
fn test_set_sadd() {
    let name = "sadd";
    let (mut rds, _) = setup(name);

    // Adding fresh members.
    {
        let res = rds.sadd("lucas-set", "val-1");
        assert_eq!(res.ok().unwrap(), true);

        let res = rds.sadd("lucas-set", "val-2");
        assert_eq!(res.ok().unwrap(), true);

        let res = rds.sadd("lucas-set", "val-3");
        assert_eq!(res.ok().unwrap(), true);

        let res = rds.sadd("lucas-set", "val-4");
        assert_eq!(res.ok().unwrap(), true);
    }

    // Adding them again.
    {
        let res = rds.sadd("lucas-set", "val-1");
        assert_eq!(res.ok().unwrap(), false);

        let res = rds.sadd("lucas-set", "val-2");
        assert_eq!(res.ok().unwrap(), false);

        let res = rds.sadd("lucas-set", "val-3");
        assert_eq!(res.ok().unwrap(), false);

        let res = rds.sadd("lucas-set", "val-4");
        assert_eq!(res.ok().unwrap(), false);
    }
}

#[test]
fn test_set_sismember() {
    let name = "sismember";
    let (mut rds, _) = setup(name);

    // Add members.
    {
        let res = rds.sadd("lucas-set", "val-1");
        assert_eq!(res.ok().unwrap(), true);

        let res = rds.sadd("lucas-set", "val-2");
        assert_eq!(res.ok().unwrap(), true);

        let res = rds.sadd("lucas-set", "val-3");
        assert_eq!(res.ok().unwrap(), true);

        let res = rds.sadd("lucas-set", "val-4");
        assert_eq!(res.ok().unwrap(), true);
    }

    // The added members are there.
    {
        let res = rds.sismember("lucas-set", "val-1");
        assert_eq!(res.ok().unwrap(), true);

        let res = rds.sismember("lucas-set", "val-2");
        assert_eq!(res.ok().unwrap(), true);

        let res = rds.sismember("lucas-set", "val-3");
        assert_eq!(res.ok().unwrap(), true);

        let res = rds.sismember("lucas-set", "val-4");
        assert_eq!(res.ok().unwrap(), true);
    }

    // Others are not.
    {
        let res = rds.sismember("lucas-set", "val-5");
        assert_eq!(res.ok().unwrap(), false);

        let res = rds.sismember("lucas-set", "val-6");
        assert_eq!(res.ok().unwrap(), false);

        let res = rds.sismember("lucas-set", "val-7");
        assert_eq!(res.ok().unwrap(), false);

        let res = rds.sismember("lucas-set", "val-8");
        assert_eq!(res.ok().unwrap(), false);
    }
}

#[test]
fn test_set_srem() {
    let name = "srem";
    let (mut rds, _) = setup(name);

    // Removing from an absent set does nothing.
    {
        let res = rds.srem("lucas-set", "val-1");
        assert_eq!(res.ok().unwrap(), false);
    }

    // A removed member is gone; removing it again does nothing.
    {
        let res = rds.sadd("lucas-set", "val-1");
        assert_eq!(res.ok().unwrap(), true);

        let res = rds.srem("lucas-set", "val-1");
        assert_eq!(res.ok().unwrap(), true);

        let res = rds.sismember("lucas-set", "val-1");
        assert_eq!(res.ok().unwrap(), false);

        let res = rds.srem("lucas-set", "val-1");
        assert_eq!(res.ok().unwrap(), false);
    }
}

#[test]
fn test_hash_hget_exist_key_field() {
    let name = "hget_exist_key_field";
    let (mut rds, _) = setup(name);

    {
        let key = "lucas_hash_hget";
        let field = "lucas_hash_field";
        let value = "lucas_hash_value";
        let set_res = rds.hset(key, field, value);
        assert!(set_res.is_ok());
        let get_res = rds.hget(key, field);
        assert!(get_res.is_ok());
        let get_res = get_res.unwrap();
        assert!(get_res.is_some());
        let get_value = get_res.unwrap();
        assert_eq!(get_value, value);
    }

    {
        let key = "lucas_hash_hget_1";
        let field = "lucas_hash_field_1";
        let value = "lucas_hash_value_1";
        let set_res = rds.hset(key, field, value);
        assert!(set_res.is_ok());
        let get_res = rds.hget(key, field);
        assert!(get_res.is_ok());
        let get_res = get_res.unwrap();
        assert!(get_res.is_some());
        let get_value = get_res.unwrap();
        assert_eq!(get_value, value);
    }
}

#[test]
fn test_hash_hget_non_exist_key_non_exist_field() {
    let name = "hget_non_exist_key_non_exist_field";
    let (mut rds, _) = setup(name);

    {
        let key = "lucas_hash_hget";
        let field = "lucas_hash_field";
        let value = "lucas_hash_value";
        let set_res = rds.hset(key, field, value);
        assert!(set_res.is_ok());
        let get_res = rds.hget(key, "non_exist_field");
        match get_res {
            Ok(impossbile_value) => {
                panic!("should not get non_exist_field: {:?}", impossbile_value)
            }
            Err(e) => match e {
                Errors::KeyNotFound => {}
                _ => panic!("unexpected error"),
            },
        }
    }

    {
        let key = "lucas_hash_hget_1";
        let field = "lucas_hash_field_1";
        let value = "lucas_hash_value_1";
        let set_res = rds.hset(key, field, value);
        assert!(set_res.is_ok());
        let get_res = rds.hget(key, "");
        match get_res {
            Ok(impossbile_value) => {
                panic!("should not get non_exist_field: {:?}", impossbile_value)
            }
            Err(e) => match e {
                Errors::KeyNotFound => {}
                _ => panic!("unexpected error"),
            },
        }
    }
}

#[test]
fn test_hash_hset() {
    let name = "hset";
    let (mut rds, _) = setup(name);

    // Fresh fields.
    {
        let set_res = rds.hset("lucas_hash", "field1", "value1");
        println!("{:?}", set_res);
        assert!(set_res.is_ok());

        let set_res = rds.hset("lucas_hash", "field2", "value2");
        println!("{:?}", set_res);

        assert!(set_res.is_ok());
    }

    // The same fields again.
    {
        let set_res = rds.hset("lucas_hash", "field1", "value1");
        println!("{:?}", set_res);
        assert!(set_res.is_ok());

        let set_res = rds.hset("lucas_hash", "field2", "value2");
        println!("{:?}", set_res);

        assert!(set_res.is_ok());
    }
}

#[test]
fn test_hash_hdel() {
    let name = "hdel";
    let (mut rds, _) = setup(name);

    // Deleting from an absent hash does nothing.
    {
        let del_res = rds.hdel("myhash", "field");
        assert!(del_res.is_ok());
        assert_eq!(del_res.unwrap(), false);
    }

    // Deleting a present field removes it.
    {
        let set_res = rds.hset("key", "field", "value");
        assert!(set_res.ok().unwrap());

        let del_res = rds.hdel("key", "field");
        assert!(del_res.ok().unwrap());
    }

    // Looking the field up again misses.
    {
        let del_res = rds.hdel("key", "non-exist-field");
        match del_res {
            Ok(v) => assert_eq!(v, false),
            Err(e) => panic!("unexpected error: {:?}", e),
        }
    }
}

#[test]
fn test_list_lpush() {
    let name = "lpush";
    let (mut db, _) = setup(name);

    let res = db.lpush("key", "element-1");
    assert_eq!(res.ok().unwrap(), 1);

    let res = db.lpush("key", "element-2");
    assert_eq!(res.ok().unwrap(), 2);

    let res = db.lpush("key", "element-3");
    assert_eq!(res.ok().unwrap(), 3);
}

#[test]
fn test_list_rpush() {
    let name = "rpush";
    let (mut db, _) = setup(name);

    let res = db.rpush("key", "element-1");
    assert_eq!(res.ok().unwrap(), 1);

    let res = db.rpush("key", "element-2");
    assert_eq!(res.ok().unwrap(), 2);

    let res = db.rpush("key", "element-3");
    assert_eq!(res.ok().unwrap(), 3);
}

#[test]
fn test_list_lpop() {
    let name = "lpop";
    let (mut db, _) = setup(name);

    // Fill the list.
    {
        let res = db.lpush("key", "element-1");
        assert_eq!(res.ok().unwrap(), 1);

        let res = db.lpush("key", "element-2");
        assert_eq!(res.ok().unwrap(), 2);

        let res = db.lpush("key", "element-3");
        assert_eq!(res.ok().unwrap(), 3);
    }

    // Pop from the left.
    {
        let pop_res = db.lpop("key");
        assert!(pop_res.is_ok());
        let pop_res = pop_res.unwrap();
        assert_eq!(pop_res.unwrap(), "element-3");

        let pop_res = db.lpop("key");
        assert!(pop_res.is_ok());
        let pop_res = pop_res.unwrap();
        assert_eq!(pop_res.unwrap(), "element-2");

        let pop_res = db.lpop("key");
        assert!(pop_res.is_ok());
        let pop_res = pop_res.unwrap();
        assert_eq!(pop_res.unwrap(), "element-1");
    }

    // Pop from an empty list.
    {
        let pop_res = db.lpop("key");
        assert!(pop_res.is_ok());
        let pop_res = pop_res.unwrap();
        assert!(pop_res.is_none());
    }
}

#[test]
fn test_list_rpop() {
    let name = "rpop";
    let (mut db, _) = setup(name);
    // Fill the list: left to right it reads 3 - 2 - 1.
    {
        let res = db.lpush("key", "element-1");
        assert_eq!(res.ok().unwrap(), 1);

        let res = db.lpush("key", "element-2");
        assert_eq!(res.ok().unwrap(), 2);

        let res = db.lpush("key", "element-3");
        assert_eq!(res.ok().unwrap(), 3);
    }

    // Pop from the right.
    {
        let pop_res = db.rpop("key");
        assert!(pop_res.is_ok());
        let pop_res = pop_res.unwrap();
        assert_eq!(pop_res.unwrap(), "element-1");

        let pop_res = db.rpop("key");
        assert!(pop_res.is_ok());
        let pop_res = pop_res.unwrap();
        assert_eq!(pop_res.unwrap(), "element-2");

        let pop_res = db.rpop("key");
        assert!(pop_res.is_ok());
        let pop_res = pop_res.unwrap();
        assert_eq!(pop_res.unwrap(), "element-3");
    }

    // Pop from an empty list.
    {
        let pop_res = db.lpop("key");
        assert!(pop_res.is_ok());
        let pop_res = pop_res.unwrap();
        assert!(pop_res.is_none());
    }
}

#[test]
fn test_redis_wrong_type() {
    let (mut rds, _) = setup("wrong_type");
    rds.sadd("typed", "member").unwrap();
    match rds.hget("typed", "field") {
        Err(Errors::WrongTypeOperation { .. }) => {}
        _ => panic!("expected a wrong-type error"),
    }
}
