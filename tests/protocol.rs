use comms::{Client, CommsError, CommsResult, Connection, Message, MessageType, Response, Server};

#[test]
fn test_headers() {
    assert_eq!(MessageType::Handshake.header(), "[HANDSHAKE]");
    assert_eq!(MessageType::Post.header(), "[POST]");
    assert_eq!(MessageType::GetCount.header(), "[GET COUNT]");
}

#[test]
fn test_server_receive() -> CommsResult<()> {
    let mut server = Server::new(String::from("TestServer"), 1);
    assert_eq!(server.connected_client(), None);

    // handshake
    let response = server.receive(Message {
        msg_type: MessageType::Handshake,
        load: String::from("localhost"),
    })?;
    assert_eq!(response, Response::HandshakeReceived);
    assert_eq!(server.post_count(), 0);
    assert_eq!(server.connected_client(), Some(String::from("localhost")));

    // another handshake should be rejected
    let result = server.receive(Message {
        msg_type: MessageType::Handshake,
        load: String::from("localhost"),
    });
    let error_msg = result.unwrap_err();
    assert_eq!(
        error_msg,
        CommsError::UnexpectedHandshake(String::from("TestServer"))
    );

    // GET
    let response = server.receive(Message {
        msg_type: MessageType::GetCount,
        load: String::new(),
    })?;
    assert_eq!(response, Response::GetCount(0));
    assert_eq!(server.post_count(), 0);

    // POST
    let response = server.receive(Message {
        msg_type: MessageType::Post,
        load: String::from("The tale begins..."),
    })?;
    assert_eq!(response, Response::PostReceived);
    assert_eq!(server.post_count(), 1);

    // another POST should cause a server error
    let result = server.receive(Message {
        msg_type: MessageType::Post,
        load: String::from("...and quickly ends."),
    });
    let error_msg = result.unwrap_err();
    assert_eq!(
        error_msg,
        CommsError::ServerLimitReached(String::from("TestServer"))
    );

    Ok(())
}

#[test]
fn test_client_open() -> CommsResult<()> {
    let mut client = Client::new(String::from("localhost"));

    assert!(client
        .open("197.0.0.1", Server::new(String::from("TestServer"), 2))
        .is_ok());
    assert!(client.is_open("197.0.0.1"));

    let conn = client.connection("197.0.0.1").unwrap();
    match conn {
        &Connection::Open(ref server) => {
            assert_eq!(server.connected_client(), Some("localhost".to_string()))
        }
        _ => panic!(),
    }

    // opening an already open connection should give an error
    let result = client.open("197.0.0.1", Server::new(String::from("TestServer2"), 100));
    let error_msg = result.unwrap_err();
    assert_eq!(
        error_msg,
        CommsError::ConnectionExists(String::from("197.0.0.1"))
    );

    Ok(())
}

#[test]
fn test_client_send() -> CommsResult<()> {
    let mut client = Client::new(String::from("localhost"));

    client.open("197.0.0.1", Server::new(String::from("TestServer"), 1))?;

    let response = client.send(
        "197.0.0.1",
        Message {
            msg_type: MessageType::GetCount,
            load: String::new(),
        },
    )?;
    assert_eq!(response, Response::GetCount(0));

    let response = client.send(
        "197.0.0.1",
        Message {
            msg_type: MessageType::Post,
            load: String::from("Another tale"),
        },
    )?;
    assert_eq!(response, Response::PostReceived);

    // The server has reached its limit: another post closes the connection.
    let result = client.send(
        "197.0.0.1",
        Message {
            msg_type: MessageType::Post,
            load: String::from("Another abrupt end"),
        },
    );
    let error_msg = result.unwrap_err();
    assert_eq!(
        error_msg,
        CommsError::ServerLimitReached(String::from("TestServer"))
    );

    assert!(!client.is_open("197.0.0.1"));

    // Nothing more goes through a closed connection.
    let result = client.send(
        "197.0.0.1",
        Message {
            msg_type: MessageType::Post,
            load: String::from("Maybe this time?"),
        },
    );
    let error_msg = result.unwrap_err();
    assert_eq!(
        error_msg,
        CommsError::ConnectionClosed(String::from("197.0.0.1"))
    );

    // Sending to an address never opened fails.
    let result = client.send(
        "10.0.0.1",
        Message {
            msg_type: MessageType::Post,
            load: String::new(),
        },
    );
    let error_msg = result.unwrap_err();
    assert_eq!(
        error_msg,
        CommsError::ConnectionNotFound(String::from("10.0.0.1"))
    );

    Ok(())
}

#[test]
fn test_client_count_closed() -> CommsResult<()> {
    let to_open = [
        "197.0.0.1",
        "197.0.0.2",
        "197.0.0.3",
        "197.0.0.4",
        "197.0.0.5",
    ];
    let to_halt = ["197.0.0.1", "197.0.0.3"];

    let mut client = Client::new(String::from("localhost"));

    to_open
        .iter()
        .for_each(|&addr| client.open(addr, Server::new(addr.to_string(), 1)).unwrap());

    for addr in to_halt {
        client.send(
            addr,
            Message {
                msg_type: MessageType::Post,
                load: String::from("Push the limit"),
            },
        )?;
        client
            .send(
                addr,
                Message {
                    msg_type: MessageType::Post,
                    load: String::from("Too much"),
                },
            )
            .expect_err("Connection should close now");
    }

    assert_eq!(client.count_closed(), 2);

    Ok(())
}
