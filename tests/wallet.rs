use themelio_core::wallet::{CreatedWalletInfo, ExecutionContext, Printable, WalletManager};

#[test]
fn manager_keeps_its_context() {
    let ctx = ExecutionContext {
        host: "127.0.0.1:11814".to_string(),
        database: "/tmp/wallets".to_string(),
    };
    let m = WalletManager::new(ctx);
    assert_eq!(m.context().host, "127.0.0.1:11814");
    assert_eq!(m.context().database, "/tmp/wallets");
}

#[test]
fn created_wallet_rows() {
    let info = CreatedWalletInfo {
        name: "alice".to_string(),
        address: "t1abc".to_string(),
        secret: "s3cr3t".to_string(),
    };
    let rows = info.rows();
    assert_eq!(rows.len(), 3);
    assert_eq!(rows[0], (">> New data:".to_string(), "alice".to_string()));
    assert_eq!(rows[1], (">> Address:".to_string(), "t1abc".to_string()));
    assert_eq!(rows[2], (">> Secret:".to_string(), "s3cr3t".to_string()));
}
